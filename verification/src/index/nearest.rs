//! What it means to be among the nearest, and why offering candidates to a short list finds them.

use vstd::prelude::*;
use crate::index::distance::{distance, lemma_dist_bound, EARLY_DISTANCE_LIMIT};
use crate::index::model::Slot;
use crate::index::shortlist::{label_sum, Best};
use crate::{DIM, K};

verus! {

/// Whether `sel` numbers different slots of `pts`.
pub open spec fn picks(pts: Seq<Slot>, sel: Seq<int>) -> bool {
    &&& sel.no_duplicates()
    &&& forall|k: int| 0 <= k < sel.len() ==> 0 <= #[trigger] sel[k] < pts.len()
}

/// Whether `sel` numbers the `K` slots of `pts` that are nearest to `q` (all of them, where there
/// are fewer). Slots at the same distance may stand in for each other.
pub open spec fn nearest(pts: Seq<Slot>, q: Seq<i16>, sel: Seq<int>) -> bool {
    &&& picks(pts, sel)
    &&& sel.len() <= K
    &&& sel.len() < K ==> forall|i: int| 0 <= i < pts.len() ==> #[trigger] sel.contains(i)
    &&& forall|k: int, i: int|
        0 <= k < sel.len() && 0 <= i < pts.len() && !sel.contains(i) ==> distance(
            pts[#[trigger] sel[k]].vec,
            q,
        ) <= distance((#[trigger] pts[i]).vec, q)
}

/// The labels of the chosen slots.
pub open spec fn labels_of(pts: Seq<Slot>, sel: Seq<int>) -> Seq<u8> {
    sel.map_values(|i: int| pts[i].label)
}

/// Whether `count` is the sum of the labels of the `K` slots nearest to `q`.
pub open spec fn is_nearest_count(pts: Seq<Slot>, q: Seq<i16>, count: int) -> bool {
    exists|sel: Seq<int>| #[trigger]
        nearest(pts, q, sel) && count == label_sum(labels_of(pts, sel))
}

/// Whether `count` is the sum of the labels of `K` slots that are all close enough to `q`.
pub open spec fn is_close_count(pts: Seq<Slot>, q: Seq<i16>, count: int) -> bool {
    exists|sel: Seq<int>| #[trigger]
        picks(pts, sel) && sel.len() == K && (forall|k: int|
            0 <= k < K ==> distance((pts[#[trigger] sel[k]]).vec, q) <= EARLY_DISTANCE_LIMIT)
            && count == label_sum(labels_of(pts, sel))
}

/// Whether the short list `b` holds the nearest slots among those in `cov`, with `sel` naming the
/// slots behind its entries.
pub open spec fn explains(pts: Seq<Slot>, q: Seq<i16>, b: Best, sel: Seq<int>, cov: Set<int>) -> bool {
    &&& b.wf()
    &&& b.sorted()
    &&& sel.len() <= K
    &&& picks(pts, sel)
    &&& forall|k: int| 0 <= k < sel.len() ==> cov.contains(#[trigger] sel[k])
    &&& forall|k: int|
        0 <= k < sel.len() ==> b.dists[k] == distance(pts[#[trigger] sel[k]].vec, q) && b.labels[k]
            == pts[sel[k]].label
    &&& forall|k: int|
        sel.len() <= k < K ==> #[trigger] b.dists[k] == i64::MAX && b.labels[k] == 0
    &&& forall|i: int| #[trigger]
        cov.contains(i) ==> 0 <= i < pts.len() && (sel.contains(i) || distance(pts[i].vec, q)
            >= b.ceiling())
}

/// Whether some choice of slots explains the short list.
pub open spec fn explained(pts: Seq<Slot>, q: Seq<i16>, b: Best, cov: Set<int>) -> bool {
    exists|sel: Seq<int>| #[trigger] explains(pts, q, b, sel, cov)
}

/// The numbers from `lo` to `hi`, `hi` left out.
pub open spec fn span(lo: int, hi: int) -> Set<int> {
    Set::new(|i: int| lo <= i < hi)
}

pub proof fn lemma_explained_empty(pts: Seq<Slot>, q: Seq<i16>)
    ensures
        explained(pts, q, Best::empty(), Set::empty()),
{
    assert(explains(pts, q, Best::empty(), Seq::empty(), Set::empty()));
}

/// A sorted list takes a candidate behind the entries that are not farther.
proof fn lemma_place_sorted(b: Best, dist: i64, pos: int)
    requires
        b.wf(),
        b.sorted(),
        0 <= pos < K,
        dist < b.dists[pos],
    ensures
        0 <= b.place(dist, pos) <= pos,
        dist < b.dists[b.place(dist, pos)],
        b.place(dist, pos) > 0 ==> b.dists[b.place(dist, pos) - 1] <= dist,
    decreases pos,
{
    if pos > 0 && dist < b.dists[pos - 1] {
        lemma_place_sorted(b, dist, pos - 1);
    }
}

/// Offering a candidate keeps the list ordered.
pub proof fn lemma_insert_sorted(b: Best, dist: i64, label: u8)
    requires
        b.wf(),
        b.sorted(),
    ensures
        b.insert(dist, label).wf(),
        b.insert(dist, label).sorted(),
        b.insert(dist, label).ceiling() <= b.ceiling(),
        dist < b.ceiling() ==> {
            let p = b.place(dist, K - 1);
            &&& 0 <= p < K
            &&& dist < b.dists[p]
            &&& p > 0 ==> b.dists[p - 1] <= dist
        },
{
    if dist < b.ceiling() {
        lemma_place_sorted(b, dist, K - 1);
    }
}

/// The slots behind the list after slot `id` has gone to place `p`.
spec fn sel_after(sel: Seq<int>, p: int, id: int) -> Seq<int> {
    (if sel.len() < K {
        sel
    } else {
        sel.drop_last()
    }).insert(p, id)
}

/// Where each of the slots behind the list comes from.
proof fn lemma_sel_after(
    pts: Seq<Slot>,
    q: Seq<i16>,
    b: Best,
    sel: Seq<int>,
    cov: Set<int>,
    p: int,
    id: int,
)
    requires
        explains(pts, q, b, sel, cov),
        0 <= p <= sel.len(),
        p < K,
        0 <= id < pts.len(),
        !cov.contains(id),
    ensures
        ({
            let n = sel_after(sel, p, id);
            &&& n.len() == (if sel.len() < K {
                sel.len() + 1
            } else {
                K as nat
            })
            &&& n[p] == id
            &&& forall|k: int| 0 <= k < p ==> #[trigger] n[k] == sel[k]
            &&& forall|k: int| p < k < n.len() ==> #[trigger] n[k] == sel[k - 1]
            &&& picks(pts, n)
            &&& forall|k: int|
                0 <= k < n.len() ==> cov.insert(id).contains(#[trigger] n[k])
        }),
{
    let n = sel_after(sel, p, id);
    assert forall|k: int| 0 <= k < n.len() implies 0 <= #[trigger] n[k] < pts.len() && cov.insert(
        id,
    ).contains(n[k]) by {
        if k < p {
            assert(n[k] == sel[k]);
        } else if k > p {
            assert(n[k] == sel[k - 1]);
        }
    }
    assert forall|i: int, j: int|
        0 <= i < n.len() && 0 <= j < n.len() && i != j implies n[i] != n[j] by {
        let oi = if i < p {
            i
        } else {
            i - 1
        };
        let oj = if j < p {
            j
        } else {
            j - 1
        };
        if i != p {
            assert(n[i] == sel[oi]);
            assert(cov.contains(sel[oi]));
        }
        if j != p {
            assert(n[j] == sel[oj]);
            assert(cov.contains(sel[oj]));
        }
    }
}

/// A candidate that enters leaves the list the nearest of those offered.
proof fn lemma_enter(pts: Seq<Slot>, q: Seq<i16>, b: Best, sel: Seq<int>, cov: Set<int>, id: int)
    requires
        explains(pts, q, b, sel, cov),
        0 <= id < pts.len(),
        !cov.contains(id),
        0 <= distance(pts[id].vec, q) < b.ceiling(),
    ensures
        explains(
            pts,
            q,
            b.insert(distance(pts[id].vec, q) as i64, pts[id].label),
            sel_after(sel, b.place(distance(pts[id].vec, q) as i64, K - 1), id),
            cov.insert(id),
        ),
{
    let dist = distance(pts[id].vec, q) as i64;
    let label = pts[id].label;
    let p = b.place(dist, K - 1);
    let nb = b.insert(dist, label);
    lemma_place_sorted(b, dist, K - 1);
    lemma_insert_sorted(b, dist, label);
    if sel.len() < p {
        assert(b.dists[p - 1] == i64::MAX);
    }
    lemma_sel_after(pts, q, b, sel, cov, p, id);
    let n = sel_after(sel, p, id);
    let ncov = cov.insert(id);
    assert forall|k: int| 0 <= k < K implies #[trigger] nb.dists[k] == (if k < p {
        b.dists[k]
    } else if k == p {
        dist
    } else {
        b.dists[k - 1]
    }) && nb.labels[k] == (if k < p {
        b.labels[k]
    } else if k == p {
        label
    } else {
        b.labels[k - 1]
    }) by {}
    assert forall|k: int| 0 <= k < n.len() implies nb.dists[k] == distance(
        pts[#[trigger] n[k]].vec,
        q,
    ) && nb.labels[k] == pts[n[k]].label by {
        assert(nb.dists[k] == nb.dists[k]);
        if k < p {
            assert(n[k] == sel[k]);
        } else if k > p {
            assert(n[k] == sel[k - 1]);
        }
    }
    assert forall|k: int| n.len() <= k < K implies #[trigger] nb.dists[k] == i64::MAX
        && nb.labels[k] == 0 by {
        assert(b.dists[k - 1] == i64::MAX);
    }
    assert forall|i: int| #[trigger] ncov.contains(i) implies 0 <= i < pts.len() && (n.contains(i)
        || distance(pts[i].vec, q) >= nb.ceiling()) by {
        if i == id {
            assert(n[p] == id);
        } else {
            assert(cov.contains(i));
            if sel.contains(i) {
                let k = choose|k: int| 0 <= k < sel.len() && sel[k] == i;
                if k < p {
                    assert(n[k] == i);
                } else if k + 1 < n.len() {
                    assert(n[k + 1] == i);
                } else {
                    assert(k == K - 1);
                    assert(b.dists[k] == distance(pts[sel[k]].vec, q));
                }
            }
        }
    }
}

/// Offering one more slot keeps the list the nearest of those offered.
pub proof fn lemma_offer(pts: Seq<Slot>, q: Seq<i16>, b: Best, cov: Set<int>, id: int)
    requires
        explained(pts, q, b, cov),
        0 <= id < pts.len(),
        !cov.contains(id),
    ensures
        distance(pts[id].vec, q) < i64::MAX,
        distance(pts[id].vec, q) >= 0,
        explained(
            pts,
            q,
            b.insert(distance(pts[id].vec, q) as i64, pts[id].label),
            cov.insert(id),
        ),
{
    let sel = choose|sel: Seq<int>| #[trigger] explains(pts, q, b, sel, cov);
    lemma_dist_bound(pts[id].vec, q, DIM as int);
    let dist = distance(pts[id].vec, q) as i64;
    if dist >= b.ceiling() {
        assert(explains(pts, q, b, sel, cov.insert(id)));
    } else {
        lemma_enter(pts, q, b, sel, cov, id);
    }
}

/// Slots that are too far to enter may be counted as offered.
pub proof fn lemma_skip_far(pts: Seq<Slot>, q: Seq<i16>, b: Best, cov: Set<int>, far: Set<int>)
    requires
        explained(pts, q, b, cov),
        forall|i: int| #[trigger]
            far.contains(i) ==> 0 <= i < pts.len() && distance(pts[i].vec, q) >= b.ceiling(),
    ensures
        explained(pts, q, b, cov.union(far)),
{
    let sel = choose|sel: Seq<int>| #[trigger] explains(pts, q, b, sel, cov);
    assert(explains(pts, q, b, sel, cov.union(far)));
}

/// The labels in the list add up to the labels of the slots behind it.
pub proof fn lemma_total(pts: Seq<Slot>, q: Seq<i16>, b: Best, sel: Seq<int>, cov: Set<int>)
    requires
        explains(pts, q, b, sel, cov),
    ensures
        b.total() == label_sum(labels_of(pts, sel)),
{
    lemma_total_from(pts, q, b, sel, cov, K as int);
}

proof fn lemma_total_from(
    pts: Seq<Slot>,
    q: Seq<i16>,
    b: Best,
    sel: Seq<int>,
    cov: Set<int>,
    n: int,
)
    requires
        explains(pts, q, b, sel, cov),
        sel.len() <= n <= K,
    ensures
        label_sum(b.labels.take(n)) == label_sum(labels_of(pts, sel)),
        n == K ==> b.total() == label_sum(labels_of(pts, sel)),
    decreases n - sel.len(),
{
    if n == sel.len() {
        assert(b.labels.take(n) =~= labels_of(pts, sel));
    } else {
        lemma_total_from(pts, q, b, sel, cov, n - 1);
        assert(b.labels.take(n).drop_last() =~= b.labels.take(n - 1));
        assert(b.dists[n - 1] == i64::MAX);
        assert(b.labels.take(n).last() == 0);
    }
    if n == K {
        assert(b.labels.take(n) =~= b.labels);
    }
}

/// A list that has been offered everything counts the labels of the nearest.
pub proof fn lemma_full_cover(pts: Seq<Slot>, q: Seq<i16>, b: Best)
    requires
        explained(pts, q, b, span(0, pts.len() as int)),
    ensures
        is_nearest_count(pts, q, b.total()),
{
    let cov = span(0, pts.len() as int);
    let sel = choose|sel: Seq<int>| #[trigger] explains(pts, q, b, sel, cov);
    lemma_total(pts, q, b, sel, cov);
    assert forall|i: int| 0 <= i < pts.len() && sel.len() < K implies #[trigger] sel.contains(i) by {
        assert(cov.contains(i));
        lemma_dist_bound(pts[i].vec, q, DIM as int);
        assert(b.dists[K - 1] == i64::MAX);
    }
    assert forall|k: int, i: int|
        0 <= k < sel.len() && 0 <= i < pts.len() && !sel.contains(i) implies distance(
        pts[#[trigger] sel[k]].vec,
        q,
    ) <= distance((#[trigger] pts[i]).vec, q) by {
        assert(cov.contains(i));
        assert(b.dists[k] <= b.dists[K - 1]);
    }
    assert(nearest(pts, q, sel));
}

/// A full list of close candidates counts the labels of close slots.
pub proof fn lemma_close_cover(pts: Seq<Slot>, q: Seq<i16>, b: Best, cov: Set<int>)
    requires
        explained(pts, q, b, cov),
        b.close_enough(),
    ensures
        is_close_count(pts, q, b.total()),
{
    let sel = choose|sel: Seq<int>| #[trigger] explains(pts, q, b, sel, cov);
    lemma_total(pts, q, b, sel, cov);
    if sel.len() < K {
        assert(b.dists[K - 1] == i64::MAX);
    }
    assert forall|k: int| 0 <= k < K implies distance((pts[#[trigger] sel[k]]).vec, q)
        <= EARLY_DISTANCE_LIMIT by {
        assert(b.dists[k] <= b.dists[K - 1]);
    }
    assert(picks(pts, sel));
}

} // verus!
