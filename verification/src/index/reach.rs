//! How far a cluster search reaches: when its count is that of the nearest of all slots.

use vstd::prelude::*;
use vstd::set_lib::{lemma_int_range, set_int_range};
use crate::index::distance::{distance, gap_is_lower_bound, in_box, lemma_gap_bound};
use crate::index::ivf::{
    lemma_all_listed, lemma_probe_place_sorted, probe_place, probes_are_closest, unclear,
    IVF_NPROBE, IVF_REPAIR_CAND_LIMIT,
};
use crate::index::model::{Clusters, Slot};
use crate::index::nearest::{
    explained, explains, is_nearest_count, lemma_explained_empty, lemma_full_cover,
    lemma_insert_sorted, lemma_skip_far, span,
};
use crate::index::shortlist::Best;
use crate::index::tree::{lemma_offer_range, offer};
use crate::DIM;

verus! {

impl Clusters {
    /// The slots of the first `n` clusters.
    pub open spec fn points_upto(self, n: int) -> Seq<Slot>
        decreases n,
    {
        if n <= 0 {
            Seq::empty()
        } else {
            self.points_upto(n - 1) + self.points(n - 1)
        }
    }

    /// All slots that a search can reach.
    pub open spec fn all_points(self) -> Seq<Slot> {
        self.points_upto(self.clusters.len() as int)
    }

    /// Where the slots of a cluster begin among all slots.
    pub open spec fn base(self, c: int) -> int {
        self.points_upto(c).len() as int
    }

    /// The numbers of the slots of a cluster.
    pub open spec fn cluster_span(self, c: int) -> Set<int> {
        span(self.base(c), self.base(c) + self.points(c).len())
    }

    /// Whether the box of a cluster holds its slots.
    pub open spec fn boxed(self, c: int) -> bool {
        forall|k: int|
            0 <= k < self.points(c).len() ==> in_box(
                (#[trigger] self.points(c)[k]).vec,
                self.clusters[c].min,
                self.clusters[c].max,
            )
    }

    /// Whether all boxes are right, so that a search may rely on them.
    pub open spec fn boxes_ok(self) -> bool {
        forall|c: int| 0 <= c < self.clusters.len() ==> #[trigger] self.boxed(c)
    }
}

/// Whether slot `i` belongs to one of the first `k` clusters of a list.
pub open spec fn inside(x: Clusters, list: Seq<(usize, i64)>, k: int, i: int) -> bool {
    exists|j: int| 0 <= j < k && #[trigger] x.cluster_span(list[j].0 as int).contains(i)
}

/// The slots of the first `k` clusters of a list.
pub open spec fn spanned(x: Clusters, list: Seq<(usize, i64)>, k: int) -> Set<int> {
    Set::new(|i: int| inside(x, list, k, i))
}

/// Whether a list names different clusters.
pub open spec fn distinct(x: Clusters, list: Seq<(usize, i64)>) -> bool {
    &&& forall|k: int| 0 <= k < list.len() ==> (#[trigger] list[k]).0 < x.clusters.len()
    &&& forall|j: int, k: int| 0 <= j < k < list.len() ==> list[j].0 != list[k].0
}

/// The slots of each cluster stand in the list of all slots.
proof fn lemma_cluster_placed(x: Clusters, c: int, n: int)
    requires
        x.wf(),
        0 <= c < n <= x.clusters.len(),
    ensures
        x.base(c) + x.points(c).len() <= x.points_upto(n).len(),
        x.points_upto(n).subrange(x.base(c), x.base(c) + x.points(c).len()) == x.points(c),
    decreases n,
{
    let at = x.base(c);
    let len = x.points(c).len();
    let whole = x.points_upto(n);
    let before = x.points_upto(n - 1);
    assert(whole == before + x.points(n - 1));
    if c == n - 1 {
        assert(whole.subrange(at, at + len) =~= x.points(c));
    } else {
        lemma_cluster_placed(x, c, n - 1);
        assert(whole.subrange(at, at + len) =~= before.subrange(at, at + len));
    }
}

/// The slots of two clusters have different numbers.
proof fn lemma_clusters_disjoint(x: Clusters, c: int, d: int, i: int)
    requires
        x.wf(),
        0 <= c < x.clusters.len(),
        0 <= d < x.clusters.len(),
        c != d,
        x.cluster_span(c).contains(i),
    ensures
        !x.cluster_span(d).contains(i),
{
    if c < d {
        lemma_cluster_placed(x, c, d);
    } else {
        lemma_cluster_placed(x, d, c);
    }
}

/// Every slot belongs to a cluster.
proof fn lemma_clusters_cover(x: Clusters, n: int, i: int) -> (c: int)
    requires
        0 <= n <= x.clusters.len(),
        0 <= i < x.points_upto(n).len(),
    ensures
        0 <= c < n,
        x.cluster_span(c).contains(i),
    decreases n,
{
    if i < x.points_upto(n - 1).len() {
        lemma_clusters_cover(x, n - 1, i)
    } else {
        n - 1
    }
}

/// Scanning a cluster deals with its slots.
proof fn lemma_scanned(x: Clusters, q: Seq<i16>, c: int, b: Best, cov: Set<int>)
    requires
        x.wf(),
        0 <= c < x.clusters.len(),
        explained(x.all_points(), q, b, cov),
        cov.disjoint(x.cluster_span(c)),
    ensures
        explained(x.all_points(), q, x.scanned(q, c, b), cov.union(x.cluster_span(c))),
{
    let y = x.clusters[c];
    assert(x.cluster_ok(c));
    lemma_cluster_placed(x, c, x.clusters.len() as int);
    assert(x.points(c).len() == y.size());
    lemma_offer_range(
        x.slots,
        q,
        x.all_points(),
        b,
        y.start(),
        y.start() + y.size(),
        x.base(c),
        cov,
    );
}

/// The next cluster of a list.
proof fn lemma_spanned_step(x: Clusters, list: Seq<(usize, i64)>, k: int)
    requires
        x.wf(),
        distinct(x, list),
        0 <= k < list.len(),
    ensures
        spanned(x, list, k + 1) == spanned(x, list, k).union(x.cluster_span(list[k].0 as int)),
        spanned(x, list, k).disjoint(x.cluster_span(list[k].0 as int)),
{
    let c = list[k].0 as int;
    assert forall|i: int| spanned(x, list, k).contains(i) implies !x.cluster_span(c).contains(i) by {
        let j = choose|j: int| 0 <= j < k && #[trigger] x.cluster_span(list[j].0 as int).contains(i);
        lemma_clusters_disjoint(x, list[j].0 as int, c, i);
    }
    assert forall|i: int| spanned(x, list, k + 1).contains(i) <==> spanned(x, list, k).union(
        x.cluster_span(c),
    ).contains(i) by {
        if inside(x, list, k + 1, i) && !x.cluster_span(c).contains(i) {
            let j = choose|j: int|
                0 <= j < k + 1 && #[trigger] x.cluster_span(list[j].0 as int).contains(i);
            assert(j < k);
        }
        if inside(x, list, k, i) {
            let j = choose|j: int|
                0 <= j < k && #[trigger] x.cluster_span(list[j].0 as int).contains(i);
            assert(inside(x, list, k + 1, i));
        }
    }
    assert(spanned(x, list, k + 1) =~= spanned(x, list, k).union(x.cluster_span(c)));
}

/// Scanning the clusters of a list deals with their slots.
proof fn lemma_scanned_all(x: Clusters, q: Seq<i16>, list: Seq<(usize, i64)>, k: int, b: Best)
    requires
        x.wf(),
        distinct(x, list),
        0 <= k <= list.len(),
        explained(x.all_points(), q, b, spanned(x, list, k)),
    ensures
        explained(
            x.all_points(),
            q,
            x.scanned_all(q, list, k, b),
            spanned(x, list, list.len() as int),
        ),
    decreases list.len() - k,
{
    if k < list.len() {
        let c = list[k].0 as int;
        lemma_spanned_step(x, list, k);
        lemma_scanned(x, q, c, b, spanned(x, list, k));
        lemma_scanned_all(x, q, list, k + 1, x.scanned(q, c, b));
    }
}

/// The clusters with the closest centres.
pub open spec fn closest(x: Clusters, q: Seq<i16>) -> Seq<(usize, i64)> {
    x.probes(q, x.clusters.len() as int)
}

/// Scanning the clusters with the closest centres deals with their slots.
pub proof fn lemma_probed(x: Clusters, q: Seq<i16>)
    requires
        x.wf(),
        x.clusters.len() <= usize::MAX,
    ensures
        distinct(x, closest(x, q)),
        closest(x, q).len() == (if x.clusters.len() < IVF_NPROBE {
            x.clusters.len()
        } else {
            IVF_NPROBE as nat
        }),
        explained(
            x.all_points(),
            q,
            x.probed(q),
            spanned(x, closest(x, q), closest(x, q).len() as int),
        ),
{
    let list = closest(x, q);
    probes_are_closest(x, q, x.clusters.len() as int);
    lemma_explained_empty(x.all_points(), q);
    assert(spanned(x, list, 0) =~= Set::empty());
    lemma_scanned_all(x, q, list, 0, Best::empty());
}

/// Where every cluster has been looked into, there are no candidates.
proof fn lemma_no_candidates(
    x: Clusters,
    q: Seq<i16>,
    skip: Seq<(usize, i64)>,
    ceiling: i64,
    n: int,
)
    requires
        forall|c: int| 0 <= c < n ==> #[trigger] x.listed(skip, c),
    ensures
        x.candidates(q, skip, ceiling, n) == Seq::<(usize, i64)>::empty(),
    decreases n,
{
    if n > 0 {
        lemma_no_candidates(x, q, skip, ceiling, n - 1);
        assert(x.listed(skip, n - 1));
    }
}

/// A cluster search of few clusters looks into all of them: its count is that of the five nearest
/// of all slots.
pub proof fn few_clusters_are_searched_exactly(x: Clusters, q: Seq<i16>, wide: bool)
    requires
        x.wf(),
        x.clusters.len() <= IVF_NPROBE,
    ensures
        is_nearest_count(x.all_points(), q, x.count(q, wide)),
{
    let n = x.clusters.len() as int;
    let list = closest(x, q);
    let pts = x.all_points();
    lemma_probed(x, q);
    assert forall|c: int| 0 <= c < n implies #[trigger] x.listed(list, c) by {
        lemma_all_listed(x, list, n, c);
    }
    assert forall|i: int| spanned(x, list, n).contains(i) <==> span(0, pts.len() as int).contains(
        i,
    ) by {
        if inside(x, list, n, i) {
            let j = choose|j: int|
                0 <= j < n && #[trigger] x.cluster_span(list[j].0 as int).contains(i);
            lemma_cluster_placed(x, list[j].0 as int, n);
        }
        if 0 <= i < pts.len() {
            let c = lemma_clusters_cover(x, n, i);
            assert(x.listed(list, c));
            let j = choose|j: int| 0 <= j < list.len() && (#[trigger] list[j]).0 == c;
            assert(x.cluster_span(list[j].0 as int).contains(i));
        }
    }
    assert(spanned(x, list, n) =~= span(0, pts.len() as int));
    lemma_full_cover(pts, q, x.probed(q));
    lemma_no_candidates(x, q, list, x.probed(q).ceiling(), n);
}

/// The number of clusters among the first `n` that are not in a list.
spec fn free(x: Clusters, list: Seq<(usize, i64)>, n: int) -> int
    decreases n,
{
    if n <= 0 {
        0
    } else {
        free(x, list, n - 1) + (if x.listed(list, n - 1) {
            0int
        } else {
            1int
        })
    }
}

/// The clusters of a list.
spec fn names(list: Seq<(usize, i64)>) -> Seq<int> {
    list.map_values(|e: (usize, i64)| e.0 as int)
}

proof fn lemma_free_count(x: Clusters, list: Seq<(usize, i64)>, n: int)
    requires
        0 <= n,
    ensures
        free(x, list, n) == n - names(list).to_set().intersect(set_int_range(0, n)).len(),
        names(list).to_set().intersect(set_int_range(0, n)).finite(),
    decreases n,
{
    let all = names(list).to_set();
    lemma_int_range(0, n);
    if n == 0 {
        assert(all.intersect(set_int_range(0, 0)) =~= Set::empty());
    } else {
        lemma_free_count(x, list, n - 1);
        let before = all.intersect(set_int_range(0, n - 1));
        let after = all.intersect(set_int_range(0, n));
        if x.listed(list, n - 1) {
            let k = choose|k: int| 0 <= k < list.len() && (#[trigger] list[k]).0 == n - 1;
            assert(names(list)[k] == n - 1);
            assert(names(list).contains(n - 1));
            assert(after =~= before.insert(n - 1));
        } else {
            assert forall|i: int| after.contains(i) implies before.contains(i) by {
                if i == n - 1 {
                    let k = choose|k: int| 0 <= k < names(list).len() && names(list)[k] == i;
                    assert(list[k].0 == n - 1);
                }
            }
            assert(after =~= before);
        }
    }
}

/// A list of different clusters leaves the others free.
proof fn lemma_free(x: Clusters, list: Seq<(usize, i64)>)
    requires
        distinct(x, list),
    ensures
        free(x, list, x.clusters.len() as int) == x.clusters.len() - list.len(),
{
    let n = x.clusters.len() as int;
    let all = names(list);
    lemma_free_count(x, list, n);
    lemma_int_range(0, n);
    assert(all.no_duplicates());
    all.unique_seq_to_set();
    assert forall|i: int| all.to_set().contains(i) implies set_int_range(0, n).contains(i) by {
        let k = choose|k: int| 0 <= k < all.len() && all[k] == i;
        assert(list[k].0 == i);
    }
    assert(all.to_set().intersect(set_int_range(0, n)) =~= all.to_set());
}

proof fn lemma_free_grows(x: Clusters, list: Seq<(usize, i64)>, m: int, n: int)
    requires
        m <= n,
    ensures
        free(x, list, m) <= free(x, list, n),
    decreases n - m,
{
    if m < n {
        lemma_free_grows(x, list, m, n - 1);
    }
}

/// Whether a cluster among the first `n` is a candidate.
spec fn wanted(x: Clusters, q: Seq<i16>, skip: Seq<(usize, i64)>, ceiling: i64, c: int) -> bool {
    !x.listed(skip, c) && x.clusters[c].count != 0 && x.cluster_gap(q, c) < ceiling
}

/// Whether a list holds the candidates among the first `n` clusters, closest boxes first.
spec fn all_candidates(
    x: Clusters,
    q: Seq<i16>,
    skip: Seq<(usize, i64)>,
    ceiling: i64,
    n: int,
    list: Seq<(usize, i64)>,
) -> bool {
    &&& forall|k: int|
        0 <= k < list.len() ==> (#[trigger] list[k]).0 < n && wanted(
            x,
            q,
            skip,
            ceiling,
            list[k].0 as int,
        ) && list[k].1 == x.cluster_gap(q, list[k].0 as int)
    &&& forall|j: int, k: int| 0 <= j < k < list.len() ==> list[j].0 != list[k].0
    &&& forall|j: int, k: int| 0 <= j <= k < list.len() ==> list[j].1 <= list[k].1
    &&& forall|c: int|
        0 <= c < n && wanted(x, q, skip, ceiling, c) ==> #[trigger] x.listed(list, c)
    &&& list.len() <= free(x, skip, n)
}

/// Where there is room for all of them, the candidates are those that are wanted.
proof fn lemma_candidates(
    x: Clusters,
    q: Seq<i16>,
    skip: Seq<(usize, i64)>,
    ceiling: i64,
    n: int,
)
    requires
        0 <= n <= x.clusters.len(),
        x.clusters.len() <= usize::MAX,
        free(x, skip, n) <= IVF_REPAIR_CAND_LIMIT,
    ensures
        all_candidates(x, q, skip, ceiling, n, x.candidates(q, skip, ceiling, n)),
    decreases n,
{
    if n > 0 {
        let c = n - 1;
        lemma_free_grows(x, skip, c, n);
        lemma_candidates(x, q, skip, ceiling, c);
        let list = x.candidates(q, skip, ceiling, c);
        let r = x.candidates(q, skip, ceiling, n);
        if !wanted(x, q, skip, ceiling, c) {
            assert(r == list);
        } else {
            let d = x.cluster_gap(q, c);
            let p = probe_place(list, d, list.len() as int);
            assert(list.len() < IVF_REPAIR_CAND_LIMIT);
            lemma_probe_place_sorted(list, d, list.len() as int);
            assert(r == list.insert(p, (c as usize, d)));
            assert(r[p] == (c as usize, d));
            assert forall|k: int| 0 <= k < r.len() implies (#[trigger] r[k]).0 < n && wanted(
                x,
                q,
                skip,
                ceiling,
                r[k].0 as int,
            ) && r[k].1 == x.cluster_gap(q, r[k].0 as int) by {
                if k < p {
                    assert(r[k] == list[k]);
                } else if k > p {
                    assert(r[k] == list[k - 1]);
                }
            }
            assert forall|j: int, k: int| 0 <= j < k < r.len() implies r[j].0 != r[k].0 by {
                let oj = if j < p {
                    j
                } else {
                    j - 1
                };
                let ok = if k < p {
                    k
                } else {
                    k - 1
                };
                if j != p {
                    assert(r[j] == list[oj]);
                }
                if k != p {
                    assert(r[k] == list[ok]);
                }
            }
            assert forall|e: int| 0 <= e < n && wanted(x, q, skip, ceiling, e) implies
                #[trigger] x.listed(r, e) by {
                if e == c {
                    assert(r[p].0 == e);
                } else {
                    assert(x.listed(list, e));
                    let j = choose|j: int| 0 <= j < list.len() && (#[trigger] list[j]).0 == e;
                    let nj = if j < p {
                        j
                    } else {
                        j + 1
                    };
                    assert(r[nj].0 == e);
                }
            }
        }
    }
}

/// Offering slots does not raise the ceiling.
proof fn lemma_offer_ceiling(slots: Seq<Slot>, q: Seq<i16>, b: Best, lo: int, hi: int)
    requires
        b.wf(),
        b.sorted(),
    ensures
        offer(slots, q, b, lo, hi).wf(),
        offer(slots, q, b, lo, hi).sorted(),
        offer(slots, q, b, lo, hi).ceiling() <= b.ceiling(),
    decreases hi - lo,
{
    if lo < hi {
        lemma_offer_ceiling(slots, q, b, lo, hi - 1);
        lemma_insert_sorted(
            offer(slots, q, b, lo, hi - 1),
            distance(slots[hi - 1].vec, q) as i64,
            slots[hi - 1].label,
        );
    }
}

/// A slot of a cluster is no closer than the box of the cluster.
proof fn lemma_in_cluster(x: Clusters, q: Seq<i16>, c: int, i: int)
    requires
        x.wf(),
        x.boxes_ok(),
        0 <= c < x.clusters.len(),
        x.cluster_span(c).contains(i),
    ensures
        0 <= i < x.all_points().len(),
        x.cluster_gap(q, c) <= distance(x.all_points()[i].vec, q),
        x.clusters[c].count != 0,
{
    let pts = x.all_points();
    let at = x.base(c);
    let y = x.clusters[c];
    assert(x.cluster_ok(c));
    assert(x.boxed(c));
    lemma_cluster_placed(x, c, x.clusters.len() as int);
    assert(x.points(c)[i - at] == pts.subrange(at, at + x.points(c).len())[i - at]);
    assert(pts[i] == x.points(c)[i - at]);
    gap_is_lower_bound(pts[i].vec, q, y.min, y.max);
    lemma_gap_bound(q, y.min, y.max, DIM as int);
    assert(x.points(c).len() == y.size());
}

/// Going on with the candidates until the outcome is clear or the rest is too far leads to the
/// nearest, unless the outcome is clear.
proof fn lemma_repaired(
    x: Clusters,
    q: Seq<i16>,
    skip: Seq<(usize, i64)>,
    ceiling: i64,
    cands: Seq<(usize, i64)>,
    k: int,
    b: Best,
)
    requires
        x.wf(),
        x.boxes_ok(),
        distinct(x, skip),
        all_candidates(x, q, skip, ceiling, x.clusters.len() as int, cands),
        0 <= k <= cands.len(),
        b.ceiling() <= ceiling,
        explained(
            x.all_points(),
            q,
            b,
            spanned(x, skip, skip.len() as int).union(spanned(x, cands, k)),
        ),
        unclear(x.repaired(q, cands, k, b).total()),
    ensures
        is_nearest_count(x.all_points(), q, x.repaired(q, cands, k, b).total()),
    decreases cands.len() - k,
{
    let pts = x.all_points();
    let n = x.clusters.len() as int;
    let seen = spanned(x, skip, skip.len() as int);
    let cov = seen.union(spanned(x, cands, k));
    if k >= cands.len() || cands[k].1 >= b.ceiling() {
        let rest = span(0, pts.len() as int).difference(cov);
        assert forall|i: int| #[trigger] rest.contains(i) implies 0 <= i < pts.len() && distance(
            pts[i].vec,
            q,
        ) >= b.ceiling() by {
            let c = lemma_clusters_cover(x, n, i);
            lemma_in_cluster(x, q, c, i);
            if x.listed(skip, c) {
                let j = choose|j: int| 0 <= j < skip.len() && (#[trigger] skip[j]).0 == c;
                assert(x.cluster_span(skip[j].0 as int).contains(i));
                assert(inside(x, skip, skip.len() as int, i));
            } else if wanted(x, q, skip, ceiling, c) {
                assert(x.listed(cands, c));
                let j = choose|j: int| 0 <= j < cands.len() && (#[trigger] cands[j]).0 == c;
                assert(x.cluster_span(cands[j].0 as int).contains(i));
                if j < k {
                    assert(inside(x, cands, k, i));
                } else {
                    assert(cands[k].1 <= cands[j].1);
                }
            }
        }
        lemma_skip_far(pts, q, b, cov, rest);
        assert forall|i: int| cov.contains(i) implies 0 <= i < pts.len() by {
            if inside(x, skip, skip.len() as int, i) {
                let j = choose|j: int|
                    0 <= j < skip.len() && #[trigger] x.cluster_span(skip[j].0 as int).contains(i);
                lemma_in_cluster(x, q, skip[j].0 as int, i);
            } else {
                let j = choose|j: int|
                    0 <= j < k && #[trigger] x.cluster_span(cands[j].0 as int).contains(i);
                lemma_in_cluster(x, q, cands[j].0 as int, i);
            }
        }
        assert(cov.union(rest) =~= span(0, pts.len() as int));
        lemma_full_cover(pts, q, b);
    } else {
        let c = cands[k].0 as int;
        let s = x.scanned(q, c, b);
        let y = x.clusters[c];
        assert(distinct(x, cands));
        lemma_spanned_step(x, cands, k);
        assert forall|i: int| seen.contains(i) implies !x.cluster_span(c).contains(i) by {
            let j = choose|j: int|
                0 <= j < skip.len() && #[trigger] x.cluster_span(skip[j].0 as int).contains(i);
            assert(skip[j].0 != c) by {
                assert(wanted(x, q, skip, ceiling, c));
            }
            lemma_clusters_disjoint(x, skip[j].0 as int, c, i);
        }
        lemma_scanned(x, q, c, b, cov);
        assert(cov.union(x.cluster_span(c)) =~= seen.union(spanned(x, cands, k + 1)));
        let sel = choose|sel: Seq<int>| #[trigger] explains(pts, q, b, sel, cov);
        lemma_offer_ceiling(x.slots, q, b, y.start(), y.start() + y.size());
        assert(unclear(s.total()));
        lemma_repaired(x, q, skip, ceiling, cands, k + 1, s);
    }
}

/// A cluster search with the wide kernels that leaves the outcome open has found the five nearest
/// of all slots, as long as there are not more clusters than it considers.
pub proof fn open_counts_are_exact(x: Clusters, q: Seq<i16>)
    requires
        x.wf(),
        x.boxes_ok(),
        x.clusters.len() <= IVF_NPROBE + IVF_REPAIR_CAND_LIMIT,
        unclear(x.count(q, true)),
    ensures
        is_nearest_count(x.all_points(), q, x.count(q, true)),
{
    let n = x.clusters.len() as int;
    let skip = closest(x, q);
    let b = x.probed(q);
    lemma_probed(x, q);
    lemma_free(x, skip);
    lemma_candidates(x, q, skip, b.ceiling(), n);
    let cands = x.candidates(q, skip, b.ceiling(), n);
    assert(spanned(x, cands, 0) =~= Set::empty());
    assert(spanned(x, skip, skip.len() as int).union(spanned(x, cands, 0)) =~= spanned(
        x,
        skip,
        skip.len() as int,
    ));
    lemma_repaired(x, q, skip, b.ceiling(), cands, 0, b);
}

} // verus!
