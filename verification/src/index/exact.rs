//! Why the exact search is exact: setting trees of the one label aside never changes the count.

use vstd::prelude::*;
use crate::index::distance::{distance, key_of, lemma_dist_bound};
use crate::index::early::{labels_small, lemma_insert_small};
use crate::index::hunt::{
    dive, drain, flushed, hunt_home, hunt_result, hunt_tour, seek_mask, settle, sweep, Chase,
};
use crate::index::model::{has_label, label_mask, Forest, Slot};
use crate::index::nearest::{
    explained, is_nearest_count, lemma_explained_empty, lemma_full_cover, lemma_insert_sorted,
    lemma_offer, lemma_skip_far, span,
};
use crate::index::shortlist::{lemma_label_sum_uniform, lemma_place_range, Best};
use crate::index::tree::{
    bounded, covered, far_base, home_span, lemma_gap_bounds, lemma_home_range,
    lemma_near_far_placed, lemma_offer_range, lemma_part_bounds, lemma_part_placed, lemma_skip_node,
    lemma_tour_end, lemma_tour_far, lemma_tour_left_out, lemma_tour_step, near_base, node_span,
    offer, placed, shallow, STACK_ROOM,
};
use crate::{DIM, K};

verus! {

/// The label whose arrival would change the count.
pub open spec fn sought(anchor: int) -> u8 {
    if anchor == 0 {
        1
    } else {
        0
    }
}

/// Whether slot `i` lies below a tree that was set aside.
pub open spec fn aside(f: Forest, h: Chase, bases: Seq<int>, i: int) -> bool {
    exists|k: int| 0 <= k < bases.len() && #[trigger] node_span(f, h.parked[k].0, bases[k]).contains(i)
}

/// Whether a tree that was set aside stands at `base` and lacks the label that matters.
pub open spec fn parked_ok(
    f: Forest,
    q: Seq<i16>,
    pts: Seq<Slot>,
    tree: (int, int),
    anchor: int,
    base: int,
) -> bool {
    &&& f.has_node(tree.0)
    &&& placed(f, pts, tree.0, base)
    &&& bounded(f, q, tree.0, tree.1)
    &&& !has_label(f.points(tree.0), sought(anchor))
}

/// Whether a search has dealt with the slots in `all`: those in `cov` were offered or are too far,
/// the others lie in trees that were set aside, which stand at `bases`.
pub open spec fn hunting(
    f: Forest,
    q: Seq<i16>,
    pts: Seq<Slot>,
    h: Chase,
    bases: Seq<int>,
    cov: Set<int>,
    all: Set<int>,
) -> bool {
    &&& explained(pts, q, h.best, cov)
    &&& labels_small(h.best)
    &&& bases.len() == h.parked.len()
    &&& forall|k: int|
        0 <= k < bases.len() ==> #[trigger] parked_ok(f, q, pts, h.parked[k], h.anchor, bases[k])
    &&& forall|j: int, k: int|
        0 <= j < k < bases.len() ==> node_span(f, h.parked[j].0, #[trigger] bases[j]).disjoint(
            node_span(f, h.parked[k].0, #[trigger] bases[k]),
        )
    &&& forall|i: int| #[trigger] all.contains(i) <==> cov.contains(i) || aside(f, h, bases, i)
    &&& forall|i: int| #[trigger] cov.contains(i) ==> !aside(f, h, bases, i)
    &&& h.parked.len() > 0 ==> h.pinned
    &&& h.pinned ==> {
        &&& !h.draining
        &&& h.anchor == 0 || h.anchor == K
        &&& h.best.ceiling() < i64::MAX
    }
}

proof fn lemma_mask_seek(pts: Seq<Slot>, anchor: int)
    ensures
        label_mask(pts) & seek_mask(anchor) == 0 <==> !has_label(pts, sought(anchor)),
{
    assert(0u8 & 1 == 0 && 1u8 & 1 == 1 && 2u8 & 1 == 0 && 3u8 & 1 == 1 && 0u8 & 2 == 0 && 1u8 & 2
        == 0 && 2u8 & 2 == 2 && 3u8 & 2 == 2) by (bit_vector);
}

/// Offering one slot of a search that has dealt with `all`.
proof fn lemma_accept(
    f: Forest,
    q: Seq<i16>,
    pts: Seq<Slot>,
    h: Chase,
    bases: Seq<int>,
    cov: Set<int>,
    all: Set<int>,
    id: int,
)
    requires
        hunting(f, q, pts, h, bases, cov, all),
        0 <= id < pts.len(),
        !all.contains(id),
        pts[id].label <= 1,
    ensures
        hunting(
            f,
            q,
            pts,
            h.accepted(distance(pts[id].vec, q) as i64, pts[id].label),
            bases,
            cov.insert(id),
            all.insert(id),
        ),
        h.accepted(distance(pts[id].vec, q) as i64, pts[id].label).draining == h.draining,
{
    let d = distance(pts[id].vec, q) as i64;
    let t = pts[id].label;
    let g = h.accepted(d, t);
    lemma_offer(pts, q, h.best, cov, id);
    lemma_insert_small(h.best, d, t);
    let sel = choose|sel: Seq<int>| #[trigger]
        crate::index::nearest::explains(pts, q, h.best, sel, cov);
    lemma_insert_sorted(h.best, d, t);
    assert(g.best == h.best.insert(d, t));
    assert(g.parked == h.parked);
    assert forall|i: int| aside(f, g, bases, i) == aside(f, h, bases, i) by {
        if aside(f, h, bases, i) {
            let k = choose|k: int|
                0 <= k < bases.len() && #[trigger] node_span(f, h.parked[k].0, bases[k]).contains(
                    i,
                );
            assert(node_span(f, g.parked[k].0, bases[k]).contains(i));
        }
    }
    assert(!aside(f, h, bases, id));
}

/// Offering a run of slots.
proof fn lemma_sweep(
    f: Forest,
    q: Seq<i16>,
    pts: Seq<Slot>,
    slots: Seq<Slot>,
    h: Chase,
    lo: int,
    hi: int,
    base: int,
    bases: Seq<int>,
    cov: Set<int>,
    all: Set<int>,
)
    requires
        hunting(f, q, pts, h, bases, cov, all),
        0 <= lo <= hi <= slots.len(),
        0 <= base,
        base + (hi - lo) <= pts.len(),
        pts.subrange(base, base + (hi - lo)) == slots.subrange(lo, hi),
        all.disjoint(span(base, base + (hi - lo))),
        forall|s: int| lo <= s < hi ==> (#[trigger] slots[s]).label <= 1,
    ensures
        hunting(
            f,
            q,
            pts,
            sweep(slots, q, h, lo, hi),
            bases,
            cov.union(span(base, base + (hi - lo))),
            all.union(span(base, base + (hi - lo))),
        ),
        sweep(slots, q, h, lo, hi).draining == h.draining,
    decreases hi - lo,
{
    let n = hi - lo;
    if n == 0 {
        assert(cov.union(span(base, base + n)) =~= cov);
        assert(all.union(span(base, base + n)) =~= all);
    } else {
        assert(pts.subrange(base, base + n - 1) =~= pts.subrange(base, base + n).subrange(
            0,
            n - 1,
        ));
        assert(slots.subrange(lo, hi - 1) =~= slots.subrange(lo, hi).subrange(0, n - 1));
        assert forall|i: int| !(all.contains(i) && span(base, base + n - 1).contains(i)) by {
            assert(!(all.contains(i) && span(base, base + n).contains(i)));
        }
        lemma_sweep(f, q, pts, slots, h, lo, hi - 1, base, bases, cov, all);
        let id = base + n - 1;
        assert(pts[id] == pts.subrange(base, base + n)[n - 1]);
        assert(slots.subrange(lo, hi)[n - 1] == slots[hi - 1]);
        assert(span(base, base + n).contains(id));
        let c = cov.union(span(base, base + n - 1));
        let a = all.union(span(base, base + n - 1));
        lemma_accept(f, q, pts, sweep(slots, q, h, lo, hi - 1), bases, c, a, id);
        assert(c.insert(id) =~= cov.union(span(base, base + n)));
        assert(a.insert(id) =~= all.union(span(base, base + n)));
    }
}

/// Exploring a tree deals with its slots. Returns where the trees set aside stand, and which slots
/// were offered or are too far.
proof fn lemma_dive(
    f: Forest,
    q: Seq<i16>,
    pts: Seq<Slot>,
    i: int,
    bound: int,
    room: int,
    h: Chase,
    base: int,
    bases: Seq<int>,
    cov: Set<int>,
    all: Set<int>,
) -> (r: (Seq<int>, Set<int>))
    requires
        f.wf(),
        f.boxes_ok(),
        f.has_node(i),
        f.depth(i) <= room,
        placed(f, pts, i, base),
        bounded(f, q, i, bound),
        hunting(f, q, pts, h, bases, cov, all),
        all.disjoint(node_span(f, i, base)),
    ensures
        hunting(
            f,
            q,
            pts,
            dive(f, q, i, bound, room, h),
            r.0,
            r.1,
            all.union(node_span(f, i, base)),
        ),
        dive(f, q, i, bound, room, h).draining == h.draining,
    decreases f.nodes.len() - i,
{
    let here = node_span(f, i, base);
    let whole = all.union(here);
    if bound >= h.best.ceiling() {
        lemma_skip_node(f, q, pts, i, base, bound, h.best, cov);
        assert forall|j: int| here.contains(j) implies !aside(f, h, bases, j) by {
            assert(!all.contains(j));
        }
        (bases, cov.union(here))
    } else if h.skips(label_mask(f.points(i))) && h.parked.len() < crate::index::hunt::PARK_LIMIT {
        let g = h.park(i, bound);
        let nb = bases.push(base);
        lemma_mask_seek(f.points(i), h.anchor);
        assert forall|j: int| aside(f, g, nb, j) == (aside(f, h, bases, j) || here.contains(j)) by {
            if aside(f, h, bases, j) {
                let k = choose|k: int|
                    0 <= k < bases.len() && #[trigger] node_span(
                        f,
                        h.parked[k].0,
                        bases[k],
                    ).contains(j);
                assert(nb[k] == bases[k] && g.parked[k] == h.parked[k]);
                assert(node_span(f, g.parked[k].0, nb[k]).contains(j));
            }
            if here.contains(j) {
                let k = bases.len() as int;
                assert(nb[k] == base && g.parked[k] == (i, bound));
                assert(node_span(f, g.parked[k].0, nb[k]).contains(j));
            }
            if aside(f, g, nb, j) {
                let k = choose|k: int|
                    0 <= k < nb.len() && #[trigger] node_span(f, g.parked[k].0, nb[k]).contains(j);
                if k < bases.len() {
                    assert(nb[k] == bases[k] && g.parked[k] == h.parked[k]);
                    assert(node_span(f, h.parked[k].0, bases[k]).contains(j));
                }
            }
        }
        assert forall|k: int| 0 <= k < nb.len() implies #[trigger] parked_ok(
            f,
            q,
            pts,
            g.parked[k],
            g.anchor,
            nb[k],
        ) by {
            if k < bases.len() {
                assert(parked_ok(f, q, pts, h.parked[k], h.anchor, bases[k]));
            }
        }
        assert forall|j: int, k: int| 0 <= j < k < nb.len() implies node_span(
            f,
            g.parked[j].0,
            #[trigger] nb[j],
        ).disjoint(node_span(f, g.parked[k].0, #[trigger] nb[k])) by {
            assert(nb[j] == bases[j] && g.parked[j] == h.parked[j]);
            if k < bases.len() {
                assert(nb[k] == bases[k] && g.parked[k] == h.parked[k]);
            } else {
                assert forall|x: int| !(node_span(f, g.parked[j].0, nb[j]).contains(x)
                    && here.contains(x)) by {
                    if node_span(f, h.parked[j].0, bases[j]).contains(x) {
                        assert(aside(f, h, bases, x));
                        assert(all.contains(x));
                    }
                }
            }
        }
        assert forall|j: int| #[trigger] cov.contains(j) implies !aside(f, g, nb, j) by {
            assert(all.contains(j));
        }
        (nb, cov)
    } else {
        let n = f.nodes[i];
        assert(f.node_ok(i));
        if n.is_leaf() {
            lemma_sweep(
                f,
                q,
                pts,
                f.slots,
                h,
                n.first(),
                n.first() + n.len,
                base,
                bases,
                cov,
                all,
            );
            (bases, cov.union(here))
        } else {
            let near = f.near(q, i);
            let far = f.far(q, i);
            let nb = near_base(f, q, i, base);
            let mb = far_base(f, q, i, base);
            lemma_near_far_placed(f, q, pts, i, base);
            assert(f.boxed(near) && f.boxed(far));
            lemma_gap_bounds(f, q, near);
            lemma_gap_bounds(f, q, far);
            let ns = node_span(f, near, nb);
            let ms = node_span(f, far, mb);
            assert(all.union(ns).union(ms) =~= whole);
            assert(all.union(ms).union(ns) =~= whole);
            assert forall|j: int| all.contains(j) implies !ns.contains(j) && !ms.contains(j) by {
                assert(!here.contains(j));
            }
            if f.node_gap(q, far) < h.best.ceiling() && room > 0 {
                let v = dive(f, q, near, f.node_gap(q, near), room - 1, h);
                let r = lemma_dive(
                    f,
                    q,
                    pts,
                    near,
                    f.node_gap(q, near),
                    room - 1,
                    h,
                    nb,
                    bases,
                    cov,
                    all,
                );
                lemma_dive(
                    f,
                    q,
                    pts,
                    far,
                    f.node_gap(q, far),
                    room,
                    v,
                    mb,
                    r.0,
                    r.1,
                    all.union(ns),
                )
            } else {
                lemma_skip_node(f, q, pts, far, mb, f.node_gap(q, far), h.best, cov);
                assert forall|j: int| ms.contains(j) implies !aside(f, h, bases, j) by {
                    assert(!all.contains(j));
                }
                assert(hunting(f, q, pts, h, bases, cov.union(ms), all.union(ms)));
                lemma_dive(
                    f,
                    q,
                    pts,
                    near,
                    f.node_gap(q, near),
                    room,
                    h,
                    nb,
                    bases,
                    cov.union(ms),
                    all.union(ms),
                )
            }
        }
    }
}

/// The slots below the trees of a list from number `k` on.
pub open spec fn listed(f: Forest, list: Seq<(int, int)>, bases: Seq<int>, k: int) -> Set<int> {
    Set::new(
        |i: int|
            exists|j: int|
                k <= j < list.len() && #[trigger] node_span(f, list[j].0, bases[j]).contains(i),
    )
}

/// Looking into the trees of a list deals with their slots.
proof fn lemma_drain(
    f: Forest,
    q: Seq<i16>,
    pts: Seq<Slot>,
    list: Seq<(int, int)>,
    bases: Seq<int>,
    anchor: int,
    k: int,
    h: Chase,
    cov: Set<int>,
    all: Set<int>,
) -> (r: Set<int>)
    requires
        f.wf(),
        f.boxes_ok(),
        shallow(f),
        h.draining,
        hunting(f, q, pts, h, Seq::empty(), cov, all),
        list.len() == bases.len(),
        0 <= k <= list.len(),
        forall|j: int|
            0 <= j < bases.len() ==> #[trigger] parked_ok(f, q, pts, list[j], anchor, bases[j]),
        forall|i: int, j: int|
            0 <= i < j < bases.len() ==> node_span(f, list[i].0, #[trigger] bases[i]).disjoint(
                node_span(f, list[j].0, #[trigger] bases[j]),
            ),
        all.disjoint(listed(f, list, bases, k)),
    ensures
        hunting(
            f,
            q,
            pts,
            drain(f, q, list, k, h),
            Seq::empty(),
            r,
            all.union(listed(f, list, bases, k)),
        ),
        drain(f, q, list, k, h).draining,
    decreases list.len() - k,
{
    let rest = listed(f, list, bases, k);
    if k >= list.len() {
        assert(all.union(rest) =~= all);
        cov
    } else {
        let here = node_span(f, list[k].0, bases[k]);
        assert(parked_ok(f, q, pts, list[k], anchor, bases[k]));
        assert(f.depth(list[k].0) <= STACK_ROOM);
        assert forall|i: int| !(all.contains(i) && here.contains(i)) by {
            if here.contains(i) {
                assert(rest.contains(i));
            }
        }
        let r = lemma_dive(
            f,
            q,
            pts,
            list[k].0,
            list[k].1,
            STACK_ROOM as int,
            h,
            bases[k],
            Seq::empty(),
            cov,
            all,
        );
        let v = dive(f, q, list[k].0, list[k].1, STACK_ROOM as int, h);
        assert(r.0 =~= Seq::empty());
        let now = all.union(here);
        let next = listed(f, list, bases, k + 1);
        assert forall|i: int| !(now.contains(i) && next.contains(i)) by {
            if next.contains(i) {
                let j = choose|j: int|
                    k + 1 <= j < list.len() && #[trigger] node_span(
                        f,
                        list[j].0,
                        bases[j],
                    ).contains(i);
                assert(rest.contains(i));
                assert(here.disjoint(node_span(f, list[j].0, bases[j])));
            }
        }
        let c = lemma_drain(f, q, pts, list, bases, anchor, k + 1, v, r.1, now);
        assert forall|i: int| now.union(next).contains(i) == all.union(rest).contains(i) by {
            if rest.contains(i) && !here.contains(i) {
                let j = choose|j: int|
                    k <= j < list.len() && #[trigger] node_span(f, list[j].0, bases[j]).contains(i);
                assert(j != k);
                assert(next.contains(i));
            }
            if next.contains(i) {
                assert(rest.contains(i));
            }
            if here.contains(i) {
                assert(rest.contains(i));
            }
        }
        assert(now.union(next) =~= all.union(rest));
        c
    }
}

/// Settling a search deals with the same slots. Returns where the trees set aside stand, and which
/// slots were offered or are too far.
proof fn lemma_settle(
    f: Forest,
    q: Seq<i16>,
    pts: Seq<Slot>,
    h: Chase,
    bases: Seq<int>,
    cov: Set<int>,
    all: Set<int>,
) -> (r: (Seq<int>, Set<int>))
    requires
        f.wf(),
        f.boxes_ok(),
        shallow(f),
        !h.draining,
        hunting(f, q, pts, h, bases, cov, all),
    ensures
        hunting(f, q, pts, settle(f, q, h), r.0, r.1, all),
        !settle(f, q, h).draining,
        !settle(f, q, h).is_unsettled(),
{
    if h.is_unsettled() {
        let none = Seq::<int>::empty();
        let cleared = Chase { parked: Seq::empty(), pinned: false, ..h };
        assert forall|i: int| !aside(f, cleared, none, i) by {}
        if h.parked.len() == 0 {
            assert forall|i: int| !aside(f, h, bases, i) by {}
            assert(hunting(f, q, pts, cleared, none, cov, all));
            (none, cov)
        } else {
            let start = Chase { draining: true, ..cleared };
            assert forall|i: int| !aside(f, start, none, i) by {}
            assert(hunting(f, q, pts, start, none, cov, cov));
            let rest = listed(f, h.parked, bases, 0);
            assert forall|i: int| rest.contains(i) == aside(f, h, bases, i) by {
                if rest.contains(i) {
                    let j = choose|j: int|
                        0 <= j < h.parked.len() && #[trigger] node_span(
                            f,
                            h.parked[j].0,
                            bases[j],
                        ).contains(i);
                    assert(node_span(f, h.parked[j].0, bases[j]).contains(i));
                }
                if aside(f, h, bases, i) {
                    let j = choose|j: int|
                        0 <= j < bases.len() && #[trigger] node_span(
                            f,
                            h.parked[j].0,
                            bases[j],
                        ).contains(i);
                    assert(node_span(f, h.parked[j].0, bases[j]).contains(i));
                }
            }
            let c = lemma_drain(f, q, pts, h.parked, bases, h.anchor, 0, start, cov, cov);
            assert(cov.union(rest) =~= all);
            let d = drain(f, q, h.parked, 0, start);
            let g = flushed(f, q, h);
            assert(d.parked.len() == 0);
            assert(g == Chase { draining: false, ..d });
            assert forall|i: int| aside(f, g, none, i) == aside(f, d, none, i) by {}
            assert(hunting(f, q, pts, g, none, c, all));
            (none, c)
        }
    } else {
        (bases, cov)
    }
}

/// Whether all labels on the list are `label`.
pub open spec fn uniform(b: Best, label: u8) -> bool {
    b.wf() && forall|k: int| 0 <= k < K ==> #[trigger] b.labels[k] == label
}

proof fn lemma_insert_uniform(b: Best, dist: i64, label: u8)
    requires
        uniform(b, label),
    ensures
        uniform(b.insert(dist, label), label),
{
    if dist < b.ceiling() {
        let p = b.place(dist, K - 1);
        lemma_place_range(b, dist, K - 1);
        let n = b.insert(dist, label);
        assert forall|k: int| 0 <= k < K implies #[trigger] n.labels[k] == label by {
            if k < p {
                assert(n.labels[k] == b.labels[k]);
            } else if k > p {
                assert(n.labels[k] == b.labels[k - 1]);
            }
        }
    }
}

proof fn lemma_offer_uniform(
    slots: Seq<Slot>,
    q: Seq<i16>,
    b: Best,
    lo: int,
    hi: int,
    label: u8,
)
    requires
        uniform(b, label),
        forall|s: int| lo <= s < hi ==> (#[trigger] slots[s]).label == label,
    ensures
        uniform(offer(slots, q, b, lo, hi), label),
    decreases hi - lo,
{
    if lo < hi {
        lemma_offer_uniform(slots, q, b, lo, hi - 1, label);
        assert(slots[hi - 1].label == label);
        lemma_insert_uniform(
            offer(slots, q, b, lo, hi - 1),
            distance(slots[hi - 1].vec, q) as i64,
            label,
        );
    }
}

/// Slots carry known labels.
pub proof fn lemma_points_small(f: Forest, i: int, k: int)
    requires
        f.wf(),
        0 <= k < f.points(i).len(),
    ensures
        f.points(i)[k].label <= 1,
    decreases f.nodes.len() - i,
{
    let n = f.nodes[i];
    assert(f.node_ok(i));
    if n.is_leaf() {
        assert(f.points(i)[k] == f.slots[n.first() + k]);
    } else {
        let a = f.points(n.left as int);
        if k < a.len() {
            lemma_points_small(f, n.left as int, k);
        } else {
            lemma_points_small(f, n.right as int, k - a.len());
        }
    }
}

/// Had the trees set aside been looked into from number `k` on, the labels would be the same.
proof fn lemma_absorb(
    f: Forest,
    q: Seq<i16>,
    pts: Seq<Slot>,
    list: Seq<(int, int)>,
    bases: Seq<int>,
    anchor: int,
    k: int,
    b: Best,
    cov: Set<int>,
) -> (r: Best)
    requires
        f.wf(),
        explained(pts, q, b, cov),
        uniform(b, (1 - sought(anchor)) as u8),
        list.len() == bases.len(),
        0 <= k <= list.len(),
        forall|j: int|
            0 <= j < bases.len() ==> #[trigger] parked_ok(f, q, pts, list[j], anchor, bases[j]),
        forall|i: int, j: int|
            0 <= i < j < bases.len() ==> node_span(f, list[i].0, #[trigger] bases[i]).disjoint(
                node_span(f, list[j].0, #[trigger] bases[j]),
            ),
        cov.disjoint(listed(f, list, bases, k)),
    ensures
        explained(pts, q, r, cov.union(listed(f, list, bases, k))),
        uniform(r, (1 - sought(anchor)) as u8),
    decreases list.len() - k,
{
    let rest = listed(f, list, bases, k);
    let label = (1 - sought(anchor)) as u8;
    if k >= list.len() {
        assert(cov.union(rest) =~= cov);
        b
    } else {
        let i = list[k].0;
        let base = bases[k];
        let n = f.points(i).len() as int;
        let here = node_span(f, i, base);
        assert(parked_ok(f, q, pts, list[k], anchor, bases[k]));
        assert forall|x: int| !(cov.contains(x) && here.contains(x)) by {
            if here.contains(x) {
                assert(rest.contains(x));
            }
        }
        lemma_offer_range(pts, q, pts, b, base, base + n, base, cov);
        assert forall|s: int| base <= s < base + n implies (#[trigger] pts[s]).label == label by {
            assert(pts.subrange(base, base + n)[s - base] == pts[s]);
            lemma_points_small(f, i, s - base);
            assert(f.points(i)[s - base].label != sought(anchor));
        }
        lemma_offer_uniform(pts, q, b, base, base + n, label);
        let now = cov.union(here);
        let next = listed(f, list, bases, k + 1);
        assert forall|x: int| !(now.contains(x) && next.contains(x)) by {
            if next.contains(x) {
                let j = choose|j: int|
                    k + 1 <= j < list.len() && #[trigger] node_span(
                        f,
                        list[j].0,
                        bases[j],
                    ).contains(x);
                assert(rest.contains(x));
                assert(here.disjoint(node_span(f, list[j].0, bases[j])));
            }
        }
        let r = lemma_absorb(
            f,
            q,
            pts,
            list,
            bases,
            anchor,
            k + 1,
            offer(pts, q, b, base, base + n),
            now,
        );
        assert forall|x: int| now.union(next).contains(x) == cov.union(rest).contains(x) by {
            if rest.contains(x) && !here.contains(x) {
                let j = choose|j: int|
                    k <= j < list.len() && #[trigger] node_span(f, list[j].0, bases[j]).contains(x);
                assert(j != k);
                assert(next.contains(x));
            }
            if next.contains(x) || here.contains(x) {
                assert(rest.contains(x));
            }
        }
        assert(now.union(next) =~= cov.union(rest));
        r
    }
}

/// A settled search that has dealt with everything counts the labels of the nearest.
proof fn lemma_verdict(
    f: Forest,
    q: Seq<i16>,
    pts: Seq<Slot>,
    h: Chase,
    bases: Seq<int>,
    cov: Set<int>,
)
    requires
        f.wf(),
        hunting(f, q, pts, h, bases, cov, span(0, pts.len() as int)),
        !h.is_unsettled(),
    ensures
        is_nearest_count(pts, q, h.best.total()),
{
    let all = span(0, pts.len() as int);
    if h.parked.len() == 0 {
        assert forall|i: int| !aside(f, h, bases, i) by {}
        assert(cov =~= all);
        lemma_full_cover(pts, q, h.best);
    } else {
        let label = (1 - sought(h.anchor)) as u8;
        lemma_label_sum_uniform(h.best.labels);
        assert(uniform(h.best, label));
        let rest = listed(f, h.parked, bases, 0);
        assert forall|i: int| rest.contains(i) == aside(f, h, bases, i) by {
            if rest.contains(i) {
                let j = choose|j: int|
                    0 <= j < h.parked.len() && #[trigger] node_span(
                        f,
                        h.parked[j].0,
                        bases[j],
                    ).contains(i);
                assert(node_span(f, h.parked[j].0, bases[j]).contains(i));
            }
            if aside(f, h, bases, i) {
                let j = choose|j: int|
                    0 <= j < bases.len() && #[trigger] node_span(
                        f,
                        h.parked[j].0,
                        bases[j],
                    ).contains(i);
                assert(node_span(f, h.parked[j].0, bases[j]).contains(i));
            }
        }
        let r = lemma_absorb(f, q, pts, h.parked, bases, h.anchor, 0, h.best, cov);
        assert(cov.union(rest) =~= all);
        lemma_full_cover(pts, q, r);
        assert(r.labels =~= h.best.labels);
    }
}

/// Going on with a tour deals with the rest of the slots.
proof fn lemma_hunt_tour(
    f: Forest,
    q: Seq<i16>,
    ceiling: int,
    order: Seq<int>,
    k: int,
    h: Chase,
    bases: Seq<int>,
    cov: Set<int>,
) -> (r: (Seq<int>, Set<int>))
    requires
        f.wf(),
        f.boxes_ok(),
        shallow(f),
        f.is_tour(q, ceiling, order),
        0 <= k <= order.len(),
        !h.draining,
        hunting(f, q, f.all_points(), h, bases, cov, covered(f, order, k)),
    ensures
        hunting(
            f,
            q,
            f.all_points(),
            hunt_tour(f, q, order, k, h),
            r.0,
            r.1,
            span(0, f.all_points().len() as int),
        ),
        !hunt_tour(f, q, order, k, h).draining,
    decreases order.len() - k,
{
    let pts = f.all_points();
    if k >= order.len() {
        lemma_tour_end(f, order);
        (bases, cov)
    } else if f.part_gap(q, order[k]) >= h.best.ceiling() {
        let rest = span(0, pts.len() as int).difference(covered(f, order, k));
        assert forall|i: int| #[trigger] rest.contains(i) implies 0 <= i < pts.len() && distance(
            pts[i].vec,
            q,
        ) >= h.best.ceiling() by {
            lemma_tour_far(f, q, ceiling, order, k, i);
        }
        lemma_skip_far(pts, q, h.best, cov, rest);
        lemma_grow(f, q, pts, h, bases, cov, covered(f, order, k), rest);
        assert(covered(f, order, k).union(rest) =~= span(0, pts.len() as int));
        (bases, cov.union(rest))
    } else {
        let p = order[k];
        let root = f.parts[p].root as int;
        let all = covered(f, order, k);
        assert(f.part_boxed(p));
        lemma_part_bounds(f, q, p);
        lemma_tour_step(f, q, ceiling, order, k);
        let r = lemma_enter_part(f, q, p, f.part_gap(q, p), h, bases, cov, all);
        let v = dive(f, q, root, f.part_gap(q, p), STACK_ROOM as int, h);
        let t = lemma_settle(f, q, pts, v, r.0, r.1, all.union(f.part_span(p)));
        lemma_hunt_tour(f, q, ceiling, order, k + 1, settle(f, q, v), t.0, t.1)
    }
}

/// Slots that are too far may be added to those dealt with.
proof fn lemma_grow(
    f: Forest,
    q: Seq<i16>,
    pts: Seq<Slot>,
    h: Chase,
    bases: Seq<int>,
    cov: Set<int>,
    all: Set<int>,
    more: Set<int>,
)
    requires
        hunting(f, q, pts, h, bases, cov, all),
        explained(pts, q, h.best, cov.union(more)),
        all.disjoint(more),
    ensures
        hunting(f, q, pts, h, bases, cov.union(more), all.union(more)),
{
    assert forall|j: int| more.contains(j) implies !aside(f, h, bases, j) by {
        assert(!all.contains(j));
    }
}

/// Exploring a partition deals with its slots.
proof fn lemma_enter_part(
    f: Forest,
    q: Seq<i16>,
    p: int,
    bound: int,
    h: Chase,
    bases: Seq<int>,
    cov: Set<int>,
    all: Set<int>,
) -> (r: (Seq<int>, Set<int>))
    requires
        f.wf(),
        f.boxes_ok(),
        shallow(f),
        0 <= p < f.parts.len(),
        bounded(f, q, f.parts[p].root as int, bound),
        hunting(f, q, f.all_points(), h, bases, cov, all),
        all.disjoint(f.part_span(p)),
    ensures
        hunting(
            f,
            q,
            f.all_points(),
            dive(f, q, f.parts[p].root as int, bound, STACK_ROOM as int, h),
            r.0,
            r.1,
            all.union(f.part_span(p)),
        ),
        dive(f, q, f.parts[p].root as int, bound, STACK_ROOM as int, h).draining == h.draining,
{
    let pts = f.all_points();
    let root = f.parts[p].root as int;
    if f.has_node(root) {
        lemma_part_placed(f, p, f.parts.len() as int);
        assert(f.depth(root) <= STACK_ROOM);
        lemma_dive(f, q, pts, root, bound, STACK_ROOM as int, h, f.part_base(p), bases, cov, all)
    } else {
        assert(all.union(f.part_span(p)) =~= all);
        (bases, cov)
    }
}

/// An exact search over right boxes counts the labels of the five nearest slots.
pub proof fn hunt_result_is_nearest(f: Forest, q: Seq<i16>, count: int)
    requires
        f.wf(),
        f.boxes_ok(),
        shallow(f),
        hunt_result(f, q, count),
    ensures
        is_nearest_count(f.all_points(), q, count),
{
    let pts = f.all_points();
    let home = f.home_of(q);
    let none = Seq::<int>::empty();
    let fresh = Chase::fresh();
    let v = hunt_home(f, q);
    lemma_explained_empty(pts, q);
    lemma_home_range(f, key_of(q), f.parts.len() as int);
    assert forall|i: int| !aside(f, fresh, none, i) by {}
    assert(hunting(f, q, pts, fresh, none, Set::empty(), Set::empty()));
    let mut bases = none;
    let mut cov = Set::<int>::empty();
    if home >= 0 {
        let root = f.parts[home].root as int;
        assert forall|k: int| 0 <= k < f.points(root).len() implies 0 <= distance(
            (#[trigger] f.points(root)[k]).vec,
            q,
        ) by {
            lemma_dist_bound(f.points(root)[k].vec, q, DIM as int);
        }
        let r = lemma_enter_part(f, q, home, 0, fresh, none, Set::empty(), Set::empty());
        assert(Set::<int>::empty().union(f.part_span(home)) =~= f.part_span(home));
        let d = dive(f, q, root, 0, STACK_ROOM as int, fresh);
        let t = lemma_settle(f, q, pts, d, r.0, r.1, f.part_span(home));
        bases = t.0;
        cov = t.1;
    }
    let all = home_span(f, q);
    assert(hunting(f, q, pts, v, bases, cov, all));
    let order = choose|order: Seq<int>| #[trigger]
        f.is_tour(q, v.best.ceiling() as int, order) && count == settle(
            f,
            q,
            hunt_tour(f, q, order, 0, v),
        ).best.total();
    let ceiling = v.best.ceiling() as int;
    let far = covered(f, order, 0).difference(all);
    assert forall|i: int| #[trigger] far.contains(i) implies 0 <= i < pts.len() && distance(
        pts[i].vec,
        q,
    ) >= v.best.ceiling() by {
        lemma_tour_left_out(f, q, ceiling, order, i);
    }
    lemma_skip_far(pts, q, v.best, cov, far);
    lemma_grow(f, q, pts, v, bases, cov, all, far);
    assert forall|i: int| all.contains(i) implies covered(f, order, 0).contains(i) by {
        lemma_tour_left_out(f, q, ceiling, order, i);
    }
    assert(all.union(far) =~= covered(f, order, 0));
    let t = lemma_hunt_tour(f, q, ceiling, order, 0, v, bases, cov.union(far));
    let w = hunt_tour(f, q, order, 0, v);
    let u = lemma_settle(f, q, pts, w, t.0, t.1, span(0, pts.len() as int));
    lemma_verdict(f, q, pts, settle(f, q, w), u.0, u.1);
}

} // verus!
