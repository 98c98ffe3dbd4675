//! What a cluster search counts.

use vstd::prelude::*;
use crate::index::distance::{distance, lemma_dist_bound};
use crate::index::ivf::{
    closest_centres, lemma_probe_place_sorted, probe_insert, probe_place, probes_are_closest,
};
use crate::index::model::Clusters;
use crate::index::nearest::{explains, labels_of, lemma_total, picks};
use crate::index::reach::{closest, inside, lemma_probed, spanned};
use crate::index::shortlist::{label_sum, Best};

verus! {

/// Whether a choice of slots is that of the five nearest to a query among those of the first
/// clusters of a list, or of all of these where there are fewer.
pub open spec fn nearest_inside(
    x: Clusters,
    q: Seq<i16>,
    list: Seq<(usize, i64)>,
    sel: Seq<int>,
) -> bool {
    let pts = x.all_points();
    let n = list.len() as int;
    &&& picks(pts, sel)
    &&& sel.len() <= 5
    &&& forall|k: int| 0 <= k < sel.len() ==> inside(x, list, n, #[trigger] sel[k])
    &&& sel.len() < 5 ==> forall|i: int| inside(x, list, n, i) ==> #[trigger] sel.contains(i)
    &&& forall|k: int, i: int|
        0 <= k < sel.len() && inside(x, list, n, i) && !sel.contains(i) ==> distance(
            pts[#[trigger] sel[k]].vec,
            q,
        ) <= distance((#[trigger] pts[i]).vec, q)
}

/// A search without the wide kernels counts the fraudulent ones among the five slots nearest to the
/// query in the twelve clusters whose centres are closest to it.
pub proof fn narrow_searches_stay_inside(x: Clusters, q: Seq<i16>) -> (sel: Seq<int>)
    requires
        x.wf(),
        x.clusters.len() <= usize::MAX,
    ensures
        ({
            let list = closest(x, q);
            let n = x.clusters.len() as int;
            &&& closest_centres(x, q, n, list)
            &&& list.len() == (if n < 12 {
                n
            } else {
                12
            })
            &&& nearest_inside(x, q, list, sel)
            &&& x.count(q, false) == label_sum(labels_of(x.all_points(), sel))
        }),
{
    let list = closest(x, q);
    let n = list.len() as int;
    let pts = x.all_points();
    let b = x.probed(q);
    let cov = spanned(x, list, n);
    lemma_probed(x, q);
    probes_are_closest(x, q, x.clusters.len() as int);
    let sel = choose|sel: Seq<int>| #[trigger] explains(pts, q, b, sel, cov);
    lemma_total(pts, q, b, sel, cov);
    assert forall|k: int| 0 <= k < sel.len() implies inside(x, list, n, #[trigger] sel[k]) by {
        assert(cov.contains(sel[k]));
    }
    assert forall|i: int| inside(x, list, n, i) && sel.len() < 5 implies #[trigger] sel.contains(
        i,
    ) by {
        assert(cov.contains(i));
        lemma_dist_bound(pts[i].vec, q, 14);
        assert(b.dists[4] == i64::MAX);
    }
    assert forall|k: int, i: int|
        0 <= k < sel.len() && inside(x, list, n, i) && !sel.contains(i) implies distance(
        pts[#[trigger] sel[k]].vec,
        q,
    ) <= distance((#[trigger] pts[i]).vec, q) by {
        assert(cov.contains(i));
        assert(b.dists[k] <= b.dists[4]);
    }
    sel
}

/// A search with the wide kernels that finds five close slots of one label counts them as a search
/// without them does: it looks no further.
pub proof fn clear_counts_are_kept(x: Clusters, q: Seq<i16>)
    requires
        x.count(q, false) == 0 || x.count(q, false) == 5,
        x.probed(q).dists[4] <= 1400 * 1400,
    ensures
        x.count(q, true) == x.count(q, false),
{
}

/// A repair goes through the candidates in turn. It ends with one that makes the count clear, that is
/// nothing or everything, and before one whose box is no closer than the last on the list.
pub proof fn repairs_end_when_clear(
    x: Clusters,
    q: Seq<i16>,
    cands: Seq<(usize, i64)>,
    k: int,
    b: Best,
)
    requires
        0 <= k < cands.len(),
    ensures
        ({
            let s = x.scanned(q, cands[k].0 as int, b);
            let n = s.total();
            &&& cands[k].1 >= b.dists[4] ==> x.repaired(q, cands, k, b) == b
            &&& cands[k].1 < b.dists[4] && (n <= 0 || n >= 5) ==> x.repaired(q, cands, k, b) == s
            &&& cands[k].1 < b.dists[4] && 1 <= n <= 4 ==> x.repaired(q, cands, k, b) == x.repaired(
                q,
                cands,
                k + 1,
                s,
            )
        }),
        x.repaired(q, cands, cands.len() as int, b) == b,
{
}

/// A search with the wide kernels that finds an open count, or a list that ends far away, repairs it
/// with the other clusters whose boxes are closer than the end of the list.
pub proof fn open_counts_are_repaired(x: Clusters, q: Seq<i16>)
    requires
        1 <= x.count(q, false) <= 4 || x.probed(q).dists[4] > 1400 * 1400,
    ensures
        ({
            let b = x.probed(q);
            let n = x.clusters.len() as int;
            x.count(q, true) == x.repaired(
                q,
                x.candidates(q, closest(x, q), b.dists[4], n),
                0,
                b,
            ).total()
        }),
{
}

/// A cluster is a candidate where it is not on the list, is not empty, and has a box closer than the
/// end of the list.
pub proof fn candidates_are_worth_a_look(
    x: Clusters,
    q: Seq<i16>,
    skip: Seq<(usize, i64)>,
    ceiling: i64,
    n: int,
)
    requires
        0 <= n,
    ensures
        ({
            let before = x.candidates(q, skip, ceiling, n);
            let gap = x.cluster_gap(q, n);
            let named = exists|k: int| 0 <= k < skip.len() && (#[trigger] skip[k]).0 == n;
            &&& named || x.clusters[n].count == 0 || gap >= ceiling ==> x.candidates(
                q,
                skip,
                ceiling,
                n + 1,
            ) == before
            &&& !named && x.clusters[n].count > 0 && gap < ceiling ==> x.candidates(
                q,
                skip,
                ceiling,
                n + 1,
            ) == probe_insert(before, 1024, n as usize, gap)
        }),
        x.candidates(q, skip, ceiling, 0) == Seq::<(usize, i64)>::empty(),
{
}

/// A cluster enters a list of the closest behind those that are no farther, and the last one drops
/// out of a full list. One that is no closer than the last of a full list does not enter.
pub proof fn later_clusters_come_behind(list: Seq<(usize, i64)>, n: int, c: usize, dist: i64)
    requires
        1 <= n,
        list.len() <= n,
        forall|j: int, k: int| 0 <= j <= k < list.len() ==> list[j].1 <= list[k].1,
    ensures
        list.len() == n && list[n - 1].1 <= dist ==> probe_insert(list, n, c, dist) == list,
        list.len() < n || dist < list[n - 1].1 ==> exists|p: int|
            0 <= p <= list.len() && #[trigger] probe_insert(list, n, c, dist)[p] == (c, dist) && (
            forall|k: int|
                0 <= k < p ==> #[trigger] probe_insert(list, n, c, dist)[k] == list[k] && list[k].1
                    <= dist) && (forall|k: int|
                p < k < probe_insert(list, n, c, dist).len() ==> #[trigger] probe_insert(
                    list,
                    n,
                    c,
                    dist,
                )[k] == list[k - 1] && list[k - 1].1 > dist),
        list.len() < n ==> probe_insert(list, n, c, dist).len() == list.len() + 1,
        list.len() == n ==> probe_insert(list, n, c, dist).len() == n,
{
    if list.len() < n || dist < list[n - 1].1 {
        let kept = if list.len() < n {
            list
        } else {
            list.drop_last()
        };
        lemma_probe_place_sorted(kept, dist, kept.len() as int);
        let p = probe_place(kept, dist, kept.len() as int);
        let r = probe_insert(list, n, c, dist);
        assert(r == kept.insert(p, (c, dist)));
        assert(r[p] == (c, dist));
        assert forall|k: int| 0 <= k < p implies #[trigger] r[k] == list[k] && list[k].1 <= dist by {
            assert(kept[k].1 <= dist);
        }
        assert forall|k: int| p < k < r.len() implies #[trigger] r[k] == list[k - 1] && list[k
            - 1].1 > dist by {
            assert(r[k] == kept[k - 1]);
            assert(dist < kept[k - 1].1);
        }
    }
}

} // verus!
