//! The search of a cluster index: the clusters with the closest centres are scanned, and where
//! the outcome is not clear, clusters whose boxes are close as well.

use vstd::prelude::*;
use crate::index::distance::{distance, distance_qv, gap, EARLY_DISTANCE_LIMIT};
use crate::index::early::{labels_small, offer_slots};
use crate::index::format::is_clusters;
use crate::index::model::{Clusters, LANES};
use crate::index::reader::{is_searchable, IndexReader};
use crate::index::shortlist::{
    best_of, lemma_label_sum_bound, sum_labels, Best,
};
use crate::index::tree::offer;
use crate::{K, STORE_DIM};

verus! {

/// Number of clusters that are always scanned.
pub const IVF_NPROBE: usize = 12;

/// Number of further clusters that are considered.
pub const IVF_REPAIR_CAND_LIMIT: usize = 1024;

/// Counts from this on are not clear.
pub const IVF_REPAIR_MIN: u8 = 1;

/// Counts up to this are not clear.
pub const IVF_REPAIR_MAX: u8 = 4;

/// A short list that ends beyond this distance is not clear.
pub const IVF_CONFIDENT_DISTANCE_LIMIT: i64 = EARLY_DISTANCE_LIMIT;

/// Where a cluster at `dist` goes when the entries from `pos` on give way to it.
pub open spec fn probe_place(list: Seq<(usize, i64)>, dist: i64, pos: int) -> int
    decreases pos,
{
    if pos > 0 && dist < list[pos - 1].1 {
        probe_place(list, dist, pos - 1)
    } else {
        pos
    }
}

/// The `n` closest clusters after one more was seen, closest first.
pub open spec fn probe_insert(
    list: Seq<(usize, i64)>,
    n: int,
    cluster: usize,
    dist: i64,
) -> Seq<(usize, i64)> {
    if list.len() == n && dist >= list[n - 1].1 {
        list
    } else {
        let kept = if list.len() < n {
            list
        } else {
            list.drop_last()
        };
        kept.insert(probe_place(kept, dist, kept.len() as int), (cluster, dist))
    }
}

proof fn lemma_probe_place_range(list: Seq<(usize, i64)>, dist: i64, pos: int)
    requires
        0 <= pos,
    ensures
        0 <= probe_place(list, dist, pos) <= pos,
    decreases pos,
{
    if pos > 0 && dist < list[pos - 1].1 {
        lemma_probe_place_range(list, dist, pos - 1);
    }
}

/// Keeps the `N` closest clusters, closest first.
pub fn insert_cluster_probe<const N: usize>(
    cluster: usize,
    dist: i64,
    probes: &mut [(usize, i64); N],
    count: &mut usize,
)
    requires
        N > 0,
        *old(count) <= N,
    ensures
        *final(count) <= N,
        final(probes)@.take(*final(count) as int) == probe_insert(
            old(probes)@.take(*old(count) as int),
            N as int,
            cluster,
            dist,
        ),
{
    let ghost list = probes@.take(*count as int);
    if *count == N && dist >= probes[N - 1].1 {
        return ;
    }
    let ghost kept = if list.len() < N {
        list
    } else {
        list.drop_last()
    };
    let mut pos: usize = if *count < N {
        let pos: usize = *count;
        *count = *count + 1;
        pos
    } else {
        N - 1
    };
    let ghost p = probe_place(kept, dist, kept.len() as int);
    while pos > 0 && dist < probes[pos - 1].1
        invariant
            0 <= pos <= kept.len(),
            kept.len() < N,
            kept.len() + 1 == *count,
            probes@.len() == N,
            p == probe_place(kept, dist, pos as int),
            forall|j: int| 0 <= j < pos ==> probes@[j] == kept[j],
            forall|j: int| pos < j <= kept.len() ==> probes@[j] == kept[j - 1],
        decreases pos,
    {
        probes[pos] = probes[pos - 1];
        pos -= 1;
    }
    probes[pos] = (cluster, dist);
    assert(probes@.take(*count as int) =~= kept.insert(p, (cluster, dist)));
}

impl Clusters {
    /// Squared distance between a query and the centre of a cluster.
    pub open spec fn centre_distance(self, q: Seq<i16>, c: int) -> i64 {
        distance(q, self.clusters[c].centroid) as i64
    }

    /// Squared gap between a query and the box of a cluster.
    pub open spec fn cluster_gap(self, q: Seq<i16>, c: int) -> i64 {
        gap(q, self.clusters[c].min, self.clusters[c].max) as i64
    }

    /// The clusters with the closest centres among the first `n`.
    pub open spec fn probes(self, q: Seq<i16>, n: int) -> Seq<(usize, i64)>
        decreases n,
    {
        if n <= 0 {
            Seq::empty()
        } else {
            probe_insert(
                self.probes(q, n - 1),
                IVF_NPROBE as int,
                (n - 1) as usize,
                self.centre_distance(q, n - 1),
            )
        }
    }

    /// The short list after a cluster was scanned.
    pub open spec fn scanned(self, q: Seq<i16>, c: int, b: Best) -> Best {
        let x = self.clusters[c];
        offer(self.slots, q, b, x.start(), x.start() + x.size())
    }

    /// The short list after the clusters of a list from number `k` on were scanned.
    pub open spec fn scanned_all(
        self,
        q: Seq<i16>,
        list: Seq<(usize, i64)>,
        k: int,
        b: Best,
    ) -> Best
        decreases list.len() - k,
    {
        if k >= list.len() {
            b
        } else {
            self.scanned_all(q, list, k + 1, self.scanned(q, list[k].0 as int, b))
        }
    }

    /// Whether a cluster is in a list.
    pub open spec fn listed(self, list: Seq<(usize, i64)>, c: int) -> bool {
        exists|k: int| 0 <= k < list.len() && (#[trigger] list[k]).0 == c
    }

    /// The closest boxes below `ceiling` among the first `n` clusters, without the empty clusters
    /// and those in `skip`.
    pub open spec fn candidates(
        self,
        q: Seq<i16>,
        skip: Seq<(usize, i64)>,
        ceiling: i64,
        n: int,
    ) -> Seq<(usize, i64)>
        decreases n,
    {
        if n <= 0 {
            Seq::empty()
        } else {
            let c = n - 1;
            let before = self.candidates(q, skip, ceiling, c);
            if self.listed(skip, c) || self.clusters[c].count == 0 || self.cluster_gap(q, c)
                >= ceiling {
                before
            } else {
                probe_insert(
                    before,
                    IVF_REPAIR_CAND_LIMIT as int,
                    c as usize,
                    self.cluster_gap(q, c),
                )
            }
        }
    }

    /// The short list after candidates from number `k` on were scanned, until the outcome is clear
    /// or the rest is too far.
    pub open spec fn repaired(
        self,
        q: Seq<i16>,
        cands: Seq<(usize, i64)>,
        k: int,
        b: Best,
    ) -> Best
        decreases cands.len() - k,
    {
        if k >= cands.len() || cands[k].1 >= b.ceiling() {
            b
        } else {
            let s = self.scanned(q, cands[k].0 as int, b);
            if unclear(s.total()) {
                self.repaired(q, cands, k + 1, s)
            } else {
                s
            }
        }
    }

    /// The short list after the closest clusters were scanned.
    pub open spec fn probed(self, q: Seq<i16>) -> Best {
        self.scanned_all(q, self.probes(q, self.clusters.len() as int), 0, Best::empty())
    }

    /// What a search returns. Only a search with the wide kernels looks further.
    pub open spec fn count(self, q: Seq<i16>, wide: bool) -> int {
        let b = self.probed(q);
        if wide && (unclear(b.total()) || b.ceiling() > IVF_CONFIDENT_DISTANCE_LIMIT) {
            let skip = self.probes(q, self.clusters.len() as int);
            let cands = self.candidates(q, skip, b.ceiling(), self.clusters.len() as int);
            self.repaired(q, cands, 0, b).total()
        } else {
            b.total()
        }
    }
}

/// Whether a count leaves the outcome open.
pub open spec fn unclear(count: int) -> bool {
    IVF_REPAIR_MIN <= count <= IVF_REPAIR_MAX
}

/// Whether a list names clusters.
pub open spec fn list_ok(x: Clusters, list: Seq<(usize, i64)>) -> bool {
    forall|k: int| 0 <= k < list.len() ==> (#[trigger] list[k]).0 < x.clusters.len()
}

proof fn lemma_insert_ok(
    x: Clusters,
    list: Seq<(usize, i64)>,
    n: int,
    cluster: usize,
    dist: i64,
)
    requires
        n > 0,
        list.len() <= n,
        list_ok(x, list),
        cluster < x.clusters.len(),
    ensures
        list_ok(x, probe_insert(list, n, cluster, dist)),
        probe_insert(list, n, cluster, dist).len() <= n,
{
    if !(list.len() == n && dist >= list[n - 1].1) {
        let kept = if list.len() < n {
            list
        } else {
            list.drop_last()
        };
        let p = probe_place(kept, dist, kept.len() as int);
        lemma_probe_place_range(kept, dist, kept.len() as int);
        let r = kept.insert(p, (cluster, dist));
        assert forall|k: int| 0 <= k < r.len() implies (#[trigger] r[k]).0 < x.clusters.len() by {
            if k < p {
                assert(r[k] == kept[k] && kept[k] == list[k]);
            } else if k > p {
                assert(r[k] == kept[k - 1] && kept[k - 1] == list[k - 1]);
            }
        }
    }
}

/// Scans a cluster.
fn scan_ivf_cluster(
    idx: &IndexReader,
    cluster: usize,
    q: &[i16; STORE_DIM],
    dists: &mut [i64; K],
    labels: &mut [u8; K],
)
    requires
        idx.wf(),
        is_clusters(idx.bytes()),
        is_searchable(idx.bytes()),
        cluster < idx.clusters().clusters.len(),
        labels_small(best_of(*old(dists), *old(labels))),
    ensures
        labels_small(best_of(*final(dists), *final(labels))),
        best_of(*final(dists), *final(labels)) == idx.clusters().scanned(
            q@,
            cluster as int,
            best_of(*old(dists), *old(labels)),
        ),
{
    let blocks = idx.block_count();
    let start_block: usize = idx.ivf_offset(cluster) as usize;
    let end_block: usize = idx.ivf_offset(cluster + 1) as usize;
    let total_len: usize = idx.ivf_count(cluster) as usize;
    assert(idx.clusters().cluster_ok(cluster as int));
    let first: usize = start_block * LANES;
    let room: usize = (end_block - start_block) * LANES;
    let size: usize = if total_len <= room {
        total_len
    } else {
        room
    };
    offer_slots(idx, q, first, first + size, dists, labels);
}

/// Looks into further clusters until the outcome is clear.
fn repair_ivf(
    idx: &IndexReader,
    q: &[i16; STORE_DIM],
    skip: &[(usize, i64); IVF_NPROBE],
    skip_count: usize,
    dists: &mut [i64; K],
    labels: &mut [u8; K],
)
    requires
        idx.wf(),
        is_clusters(idx.bytes()),
        is_searchable(idx.bytes()),
        skip_count <= IVF_NPROBE,
        labels_small(best_of(*old(dists), *old(labels))),
    ensures
        labels_small(best_of(*final(dists), *final(labels))),
        ({
            let x = idx.clusters();
            let b = best_of(*old(dists), *old(labels));
            let cands = x.candidates(
                q@,
                skip@.take(skip_count as int),
                b.ceiling(),
                x.clusters.len() as int,
            );
            best_of(*final(dists), *final(labels)) == x.repaired(q@, cands, 0, b)
        }),
{
    let ghost x = idx.clusters();
    let ghost b0 = best_of(*dists, *labels);
    let ghost seen = skip@.take(skip_count as int);
    let mut cands: [(usize, i64); IVF_REPAIR_CAND_LIMIT] = [
        (usize::MAX, i64::MAX);
        IVF_REPAIR_CAND_LIMIT
    ];
    let mut cand_count: usize = 0;
    let total: usize = idx.part_count() as usize;
    let mut c: usize = 0;
    assert(cands@.take(0) =~= Seq::empty());
    while c < total
        invariant
            idx.wf(),
            is_clusters(idx.bytes()),
            is_searchable(idx.bytes()),
            x == idx.clusters(),
            total == x.clusters.len(),
            skip_count <= IVF_NPROBE,
            seen == skip@.take(skip_count as int),
            b0 == best_of(*dists, *labels),
            c <= total,
            cand_count <= IVF_REPAIR_CAND_LIMIT,
            list_ok(x, cands@.take(cand_count as int)),
            cands@.take(cand_count as int) == x.candidates(q@, seen, b0.ceiling(), c as int),
        decreases total - c,
    {
        let mut found = false;
        let mut k: usize = 0;
        while k < skip_count && !found
            invariant
                k <= skip_count <= IVF_NPROBE,
                seen == skip@.take(skip_count as int),
                found ==> x.listed(seen, c as int),
                !found ==> forall|j: int| 0 <= j < k ==> (#[trigger] seen[j]).0 != c,
            decreases skip_count - k + (if found { 0int } else { 1int }),
        {
            assert(seen[k as int] == skip@[k as int]);
            if skip[k].0 == c {
                found = true;
            }
            k += 1;
        }
        if !found && idx.ivf_count(c) != 0 {
            let lb: i64 = idx.lower_bound_cluster(c, q);
            if lb < dists[K - 1] {
                proof {
                    lemma_insert_ok(
                        x,
                        cands@.take(cand_count as int),
                        IVF_REPAIR_CAND_LIMIT as int,
                        c,
                        lb,
                    );
                }
                insert_cluster_probe(c, lb, &mut cands, &mut cand_count);
            }
        }
        c += 1;
    }
    let ghost list = cands@.take(cand_count as int);
    let ghost goal = x.repaired(q@, list, 0, b0);
    let mut k: usize = 0;
    let mut clear = false;
    while k < cand_count && !clear && cands[k].1 < dists[K - 1]
        invariant
            idx.wf(),
            is_clusters(idx.bytes()),
            is_searchable(idx.bytes()),
            x == idx.clusters(),
            k <= cand_count <= IVF_REPAIR_CAND_LIMIT,
            list == cands@.take(cand_count as int),
            list_ok(x, list),
            labels_small(best_of(*dists, *labels)),
            goal == (if clear {
                best_of(*dists, *labels)
            } else {
                x.repaired(q@, list, k as int, best_of(*dists, *labels))
            }),
        decreases cand_count - k,
    {
        assert(list[k as int] == cands@[k as int]);
        scan_ivf_cluster(idx, cands[k].0, q, dists, labels);
        proof {
            lemma_label_sum_bound(labels@);
        }
        let count: u8 = sum_labels(labels);
        if count < IVF_REPAIR_MIN || count > IVF_REPAIR_MAX {
            clear = true;
        }
        k += 1;
    }
    assert(k < list.len() ==> list[k as int] == cands@[k as int]);
}

/// Counts the fraudulent ones among the five neighbours that a cluster search finds.
pub fn fraud_count_ivf(idx: &IndexReader, q: &[i16; STORE_DIM]) -> (count: u8)
    requires
        idx.wf(),
        is_clusters(idx.bytes()),
        is_searchable(idx.bytes()),
    ensures
        count == idx.clusters().count(q@, idx.is_wide()),
        count <= K,
{
    let ghost x = idx.clusters();
    let mut dists: [i64; K] = [i64::MAX; K];
    let mut labels: [u8; K] = [0u8; K];
    assert(best_of(dists, labels) =~= Best::empty());
    let mut probes: [(usize, i64); IVF_NPROBE] = [(usize::MAX, i64::MAX); IVF_NPROBE];
    let mut probe_count: usize = 0;
    let total: usize = idx.part_count() as usize;
    let mut c: usize = 0;
    assert(probes@.take(0) =~= Seq::empty());
    while c < total
        invariant
            idx.wf(),
            is_clusters(idx.bytes()),
            x == idx.clusters(),
            total == x.clusters.len(),
            c <= total,
            probe_count <= IVF_NPROBE,
            list_ok(x, probes@.take(probe_count as int)),
            probes@.take(probe_count as int) == x.probes(q@, c as int),
        decreases total - c,
    {
        let centroid = idx.centroid(c);
        let dist: i64 = distance_qv(q, &centroid);
        proof {
            lemma_insert_ok(x, probes@.take(probe_count as int), IVF_NPROBE as int, c, dist);
        }
        insert_cluster_probe(c, dist, &mut probes, &mut probe_count);
        c += 1;
    }
    let ghost list = probes@.take(probe_count as int);
    let mut k: usize = 0;
    while k < probe_count
        invariant
            idx.wf(),
            is_clusters(idx.bytes()),
            is_searchable(idx.bytes()),
            x == idx.clusters(),
            k <= probe_count <= IVF_NPROBE,
            list == probes@.take(probe_count as int),
            list_ok(x, list),
            labels_small(best_of(dists, labels)),
            x.scanned_all(q@, list, 0, Best::empty()) == x.scanned_all(
                q@,
                list,
                k as int,
                best_of(dists, labels),
            ),
        decreases probe_count - k,
    {
        assert(list[k as int] == probes@[k as int]);
        scan_ivf_cluster(idx, probes[k].0, q, &mut dists, &mut labels);
        k += 1;
    }
    proof {
        lemma_label_sum_bound(labels@);
    }
    let mut count: u8 = sum_labels(&labels);
    if idx.wide() && ((IVF_REPAIR_MIN <= count && count <= IVF_REPAIR_MAX) || dists[K - 1]
        > IVF_CONFIDENT_DISTANCE_LIMIT) {
        repair_ivf(idx, q, &probes, probe_count, &mut dists, &mut labels);
        proof {
            lemma_label_sum_bound(labels@);
        }
        count = sum_labels(&labels);
    }
    count
}

/// Whether a list holds the clusters with the closest centres among the first `n`, closest first.
pub open spec fn closest_centres(
    x: Clusters,
    q: Seq<i16>,
    n: int,
    list: Seq<(usize, i64)>,
) -> bool {
    &&& list.len() == (if n < IVF_NPROBE {
        n
    } else {
        IVF_NPROBE as int
    })
    &&& forall|k: int|
        0 <= k < list.len() ==> (#[trigger] list[k]).0 < n && list[k].1 == x.centre_distance(
            q,
            list[k].0 as int,
        )
    &&& forall|j: int, k: int| 0 <= j < k < list.len() ==> list[j].0 != list[k].0
    &&& forall|j: int, k: int| 0 <= j <= k < list.len() ==> list[j].1 <= list[k].1
    &&& forall|c: int, k: int|
        0 <= c < n && !#[trigger] x.listed(list, c) && 0 <= k < list.len() ==> (#[trigger] list[k]).1
            <= x.centre_distance(q, c)
}

pub proof fn lemma_probe_place_sorted(list: Seq<(usize, i64)>, dist: i64, pos: int)
    requires
        0 <= pos <= list.len(),
        forall|j: int, k: int| 0 <= j <= k < list.len() ==> list[j].1 <= list[k].1,
        forall|k: int| pos <= k < list.len() ==> dist < list[k].1,
    ensures
        ({
            let p = probe_place(list, dist, pos);
            &&& 0 <= p <= pos
            &&& forall|k: int| p <= k < list.len() ==> dist < list[k].1
            &&& forall|k: int| 0 <= k < p ==> list[k].1 <= dist
        }),
    decreases pos,
{
    if pos > 0 && dist < list[pos - 1].1 {
        lemma_probe_place_sorted(list, dist, pos - 1);
    }
}

/// The clusters that are always scanned are those with the closest centres.
pub proof fn probes_are_closest(x: Clusters, q: Seq<i16>, n: int)
    requires
        0 <= n <= x.clusters.len(),
        n <= usize::MAX,
    ensures
        closest_centres(x, q, n, x.probes(q, n)),
    decreases n,
{
    if n > 0 {
        probes_are_closest(x, q, n - 1);
        let list = x.probes(q, n - 1);
        let c = n - 1;
        let dist = x.centre_distance(q, c);
        let r = x.probes(q, n);
        let cap = IVF_NPROBE as int;
        if list.len() == cap && dist >= list[cap - 1].1 {
            assert forall|d: int, k: int|
                0 <= d < n && !#[trigger] x.listed(r, d) && 0 <= k < r.len() implies (
            #[trigger] r[k]).1 <= x.centre_distance(q, d) by {
                if d == c {
                    assert(list[k].1 <= list[cap - 1].1);
                }
            }
        } else {
            let kept = if list.len() < cap {
                list
            } else {
                list.drop_last()
            };
            let p = probe_place(kept, dist, kept.len() as int);
            lemma_probe_place_sorted(kept, dist, kept.len() as int);
            assert(r == kept.insert(p, (c as usize, dist)));
            assert forall|k: int| 0 <= k < r.len() implies (#[trigger] r[k]).0 < n && r[k].1
                == x.centre_distance(q, r[k].0 as int) by {
                if k < p {
                    assert(r[k] == list[k]);
                } else if k > p {
                    assert(r[k] == list[k - 1]);
                }
            }
            assert forall|j: int, k: int| 0 <= j < k < r.len() implies r[j].0 != r[k].0 by {
                let oj = if j < p {
                    j
                } else {
                    j - 1
                };
                let ok = if k < p {
                    k
                } else {
                    k - 1
                };
                if j != p {
                    assert(r[j] == list[oj]);
                }
                if k != p {
                    assert(r[k] == list[ok]);
                }
            }
            assert forall|d: int, k: int|
                0 <= d < n && !#[trigger] x.listed(r, d) && 0 <= k < r.len() implies (
            #[trigger] r[k]).1 <= x.centre_distance(q, d) by {
                assert(r[p].0 == c);
                assert(d != c);
                if x.listed(list, d) {
                    let j = choose|j: int| 0 <= j < list.len() && (#[trigger] list[j]).0 == d;
                    if j < kept.len() {
                        let nj = if j < p {
                            j
                        } else {
                            j + 1
                        };
                        assert(r[nj].0 == d);
                    } else {
                        assert(j == cap - 1);
                        assert(list[j].1 == x.centre_distance(q, d));
                        if k < p {
                            assert(r[k] == list[k]);
                        } else if k > p {
                            assert(r[k] == list[k - 1]);
                        }
                    }
                } else {
                    if list.len() < cap {
                        assert(list.len() == n - 1);
                        lemma_all_listed(x, list, n - 1, d);
                    } else {
                        if k < p {
                            assert(r[k] == list[k]);
                        } else if k > p {
                            assert(r[k] == list[k - 1]);
                        } else {
                            assert(list[cap - 1].1 <= x.centre_distance(q, d));
                        }
                    }
                }
            }
        }
    }
}

/// A list of as many different clusters as there are lists each of them.
pub proof fn lemma_all_listed(x: Clusters, list: Seq<(usize, i64)>, n: int, d: int)
    requires
        list.len() == n,
        0 <= d < n,
        forall|k: int| 0 <= k < list.len() ==> (#[trigger] list[k]).0 < n,
        forall|j: int, k: int| 0 <= j < k < list.len() ==> list[j].0 != list[k].0,
    ensures
        x.listed(list, d),
{
    let names = list.map_values(|e: (usize, i64)| e.0 as int);
    assert(names.no_duplicates());
    names.unique_seq_to_set();
    let range = vstd::set_lib::set_int_range(0, n);
    vstd::set_lib::lemma_int_range(0, n);
    assert(names.to_set().subset_of(range)) by {
        assert forall|v: int| names.to_set().contains(v) implies range.contains(v) by {
            let k = choose|k: int| 0 <= k < names.len() && names[k] == v;
            assert(list[k].0 == v);
        }
    }
    vstd::set_lib::lemma_subset_equality(names.to_set(), range);
    assert(range.contains(d));
    assert(names.contains(d));
    let k = choose|k: int| 0 <= k < names.len() && names[k] == d;
    assert(list[k].0 == d);
}

} // verus!
