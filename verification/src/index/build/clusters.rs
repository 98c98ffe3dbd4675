//! Building a cluster index: the vectors are split into groups of about the same size, and each
//! group becomes a cluster.

use vstd::prelude::*;
use crate::index::build::grow::{
    block_slot, bounds, box_high, box_low, extends, is_order, lemma_map_multiset, numbers, padded,
    push_blocks, split_sorted, widest, widest_dim, Input,
};
use crate::index::distance::{distance, distance_qv};
use crate::index::model::{Cluster, Clusters, Slot, LANES};
use crate::index::tree::sort_by_first;
use crate::{DIM, STORE_DIM};

verus! {

/// Number of clusters that are aimed at.
pub const IVF_CLUSTER_COUNT: usize = 4096;

/// Whether `l` and `r` halve a group at the middle of the widest dimension of its box.
pub open spec fn is_halving(
    vs: Seq<[i16; STORE_DIM]>,
    ids: Seq<int>,
    l: Seq<int>,
    r: Seq<int>,
) -> bool {
    let d = widest(box_low(vs, ids), box_high(vs, ids), DIM as int);
    &&& l.len() == ids.len() / 2
    &&& (l + r).to_multiset() == ids.to_multiset()
    &&& forall|j: int, k: int|
        0 <= j < l.len() && 0 <= k < r.len() ==> vs[#[trigger] l[j]]@[d] <= vs[#[trigger] r[k]]@[d]
}

/// Whether group `k` is as long as any.
pub open spec fn is_longest(groups: Seq<Seq<int>>, k: int) -> bool {
    &&& 0 <= k < groups.len()
    &&& forall|j: int| 0 <= j < groups.len() ==> (#[trigger] groups[j]).len() <= groups[k].len()
}

/// The groups after group `k` was replaced by two.
pub open spec fn replaced(groups: Seq<Seq<int>>, k: int, l: Seq<int>, r: Seq<int>) -> Seq<Seq<int>> {
    groups.update(k, l).insert(k + 1, r)
}

/// Whether `b` comes from `a` by halving a longest group.
pub open spec fn is_step(vs: Seq<[i16; STORE_DIM]>, a: Seq<Seq<int>>, b: Seq<Seq<int>>) -> bool {
    exists|k: int, l: Seq<int>, r: Seq<int>| #[trigger]
        is_halving(vs, a[k], l, r) && is_longest(a, k) && a[k].len() > LANES && b == replaced(
            a,
            k,
            l,
            r,
        )
}

/// The numbers from 0 to `n`, `n` left out.
pub open spec fn all_numbers(n: nat) -> Seq<int> {
    Seq::new(n, |i: int| i)
}

/// Whether a history of halvings begins with all vectors in one group.
pub open spec fn is_history(vs: Seq<[i16; STORE_DIM]>, h: Seq<Seq<Seq<int>>>) -> bool {
    &&& h.len() > 0
    &&& h[0] == seq![all_numbers(vs.len())]
    &&& forall|i: int| 0 <= i < h.len() - 1 ==> is_step(vs, #[trigger] h[i], h[i + 1])
}

/// Whether halving ends: there are enough groups, or none has more than a block.
pub open spec fn is_finished(groups: Seq<Seq<int>>, target: int) -> bool {
    groups.len() >= target || forall|k: int|
        0 <= k < groups.len() ==> (#[trigger] groups[k]).len() <= LANES
}

/// Whether a history goes on only while there are fewer groups than wanted.
pub open spec fn stops_at(h: Seq<Seq<Seq<int>>>, target: int) -> bool {
    forall|i: int| 0 <= i < h.len() - 1 ==> (#[trigger] h[i]).len() < target
}

/// Whether halving all vectors can end with these groups.
pub open spec fn is_splitting(
    vs: Seq<[i16; STORE_DIM]>,
    target: int,
    groups: Seq<Seq<int>>,
) -> bool {
    &&& is_finished(groups, target)
    &&& exists|h: Seq<Seq<Seq<int>>>| #[trigger]
        is_history(vs, h) && stops_at(h, target) && h.last() == groups
}

/// The greatest number of groups that splitting ends with.
pub open spec fn most_groups(target: int) -> int {
    if target >= 1 {
        target
    } else {
        1
    }
}

/// Splitting ends with as many groups as wanted at most, but with one at least.
pub proof fn splitting_stays_within(
    vs: Seq<[i16; STORE_DIM]>,
    target: int,
    groups: Seq<Seq<int>>,
)
    requires
        is_splitting(vs, target, groups),
    ensures
        1 <= groups.len() <= most_groups(target),
{
    let h = choose|h: Seq<Seq<Seq<int>>>| #[trigger]
        is_history(vs, h) && stops_at(h, target) && h.last() == groups;
    let n = h.len() as int;
    if n > 1 {
        let a = h[n - 2];
        assert(a.len() < target);
        assert(is_step(vs, h[n - 2], h[n - 2 + 1]));
        let (k, l, r) = choose|k: int, l: Seq<int>, r: Seq<int>| #[trigger]
            is_halving(vs, a[k], l, r) && is_longest(a, k) && a[k].len() > LANES && groups
                == replaced(a, k, l, r);
        assert(groups.len() == a.len() + 1);
    }
}

/// The groups behind lists of indices.
pub open spec fn groups_of(lists: Seq<Vec<usize>>) -> Seq<Seq<int>> {
    lists.map_values(|l: Vec<usize>| numbers(l@))
}

/// Whether all lists name vectors.
pub open spec fn lists_ok(lists: Seq<Vec<usize>>, n: int) -> bool {
    forall|c: int, k: int|
        0 <= c < lists.len() && 0 <= k < lists[c]@.len() ==> (#[trigger] lists[c]@[k]) < n
}

/// Finds a longest group.
fn longest(lists: &Vec<Vec<usize>>) -> (best: usize)
    requires
        lists@.len() >= 1,
    ensures
        best < lists@.len(),
        is_longest(groups_of(lists@), best as int),
{
    let mut best: usize = 0;
    let mut k: usize = 1;
    while k < lists.len()
        invariant
            1 <= k <= lists@.len(),
            best < k,
            forall|j: int|
                0 <= j < k ==> (#[trigger] lists@[j])@.len() <= lists@[best as int]@.len(),
        decreases lists@.len() - k,
    {
        if lists[k].len() > lists[best].len() {
            best = k;
        }
        k += 1;
    }
    proof {
        let groups = groups_of(lists@);
        assert forall|j: int| 0 <= j < groups.len() implies (#[trigger] groups[j]).len()
            <= groups[best as int].len() by {
            assert(lists@[j]@.len() <= lists@[best as int]@.len());
        }
    }
    best
}

/// Splits a group in the middle of the widest dimension of its box.
fn halve(vectors: &Vec<[i16; STORE_DIM]>, list: &Vec<usize>) -> (r: (Vec<usize>, Vec<usize>))
    requires
        forall|k: int| 0 <= k < list@.len() ==> #[trigger] list@[k] < vectors@.len(),
    ensures
        is_halving(vectors@, numbers(list@), numbers(r.0@), numbers(r.1@)),
        forall|k: int| 0 <= k < r.0@.len() ==> #[trigger] r.0@[k] < vectors@.len(),
        forall|k: int| 0 <= k < r.1@.len() ==> #[trigger] r.1@[k] < vectors@.len(),
{
    let (lo, hi) = bounds(vectors, list);
    let dim = widest_dim(&lo, &hi);
    let (left, right) = split_sorted(vectors, list, dim);
    proof {
        let vs = vectors@;
        let ids = numbers(list@);
        let l = numbers(left@);
        let r = numbers(right@);
        let ord = l + r;
        assert(is_order(vs, ids, dim as int, ord));
        assert forall|j: int, k: int| 0 <= j < l.len() && 0 <= k < r.len() implies vs[
        #[trigger] l[j]]@[dim as int] <= vs[#[trigger] r[k]]@[dim as int] by {
            assert(ord[j] == l[j] && ord[l.len() + k] == r[k]);
        }
    }
    (left, right)
}

/// Replaces a longest group by its halves.
fn split_group(vectors: &Vec<[i16; STORE_DIM]>, lists: &mut Vec<Vec<usize>>, best: usize)
    requires
        best < old(lists)@.len(),
        lists_ok(old(lists)@, vectors@.len() as int),
        is_longest(groups_of(old(lists)@), best as int),
        old(lists)@[best as int]@.len() > LANES,
    ensures
        final(lists)@.len() == old(lists)@.len() + 1,
        lists_ok(final(lists)@, vectors@.len() as int),
        is_step(vectors@, groups_of(old(lists)@), groups_of(final(lists)@)),
{
    let ghost before = lists@;
    let ghost groups = groups_of(lists@);
    assert forall|k: int| 0 <= k < lists@[best as int]@.len() implies #[trigger] lists@[
    best as int]@[k] < vectors@.len() by {}
    let (left, right) = halve(vectors, &lists[best]);
    let ghost l = numbers(left@);
    let ghost r = numbers(right@);
    lists.set(best, left);
    let count: usize = lists.len();
    assert(best + 1 <= count);
    lists.insert(best + 1, right);
    proof {
        assert(groups_of(lists@) =~= replaced(groups, best as int, l, r));
        assert(is_halving(vectors@, groups[best as int], l, r));
        assert forall|c: int, k: int| 0 <= c < lists@.len() && 0 <= k < lists@[c]@.len() implies (
        #[trigger] lists@[c]@[k]) < vectors@.len() by {
            if c < best {
                assert(lists@[c] == before[c]);
            } else if c > best + 1 {
                assert(lists@[c] == before[c - 1]);
            }
        }
    }
}

/// One more step makes a longer history.
proof fn lemma_history_grows(
    vs: Seq<[i16; STORE_DIM]>,
    h: Seq<Seq<Seq<int>>>,
    target: int,
    next: Seq<Seq<int>>,
)
    requires
        is_history(vs, h),
        stops_at(h, target),
        h.last().len() < target,
        is_step(vs, h.last(), next),
    ensures
        is_history(vs, h.push(next)),
        stops_at(h.push(next), target),
{
    let g = h.push(next);
    assert forall|i: int| 0 <= i < g.len() - 1 implies is_step(vs, #[trigger] g[i], g[i + 1]) by {
        if i < h.len() - 1 {
            assert(g[i] == h[i] && g[i + 1] == h[i + 1]);
        } else {
            assert(g[i] == h.last() && g[i + 1] == next);
        }
    }
}

/// Splits all vectors into groups: the longest group is halved again and again.
pub fn split_ivf_ranges(vectors: &Vec<[i16; STORE_DIM]>, target: usize) -> (lists: Vec<Vec<usize>>)
    ensures
        is_splitting(vectors@, target as int, groups_of(lists@)),
        lists_ok(lists@, vectors@.len() as int),
        1 <= lists@.len() <= most_groups(target as int),
{
    let ghost vs = vectors@;
    let mut all: Vec<usize> = Vec::new();
    let mut i: usize = 0;
    while i < vectors.len()
        invariant
            i <= vectors@.len(),
            all@.len() == i,
            forall|k: int| 0 <= k < i ==> #[trigger] all@[k] == k,
        decreases vectors@.len() - i,
    {
        all.push(i);
        i += 1;
    }
    let mut lists: Vec<Vec<usize>> = Vec::new();
    assert(numbers(all@) =~= all_numbers(vs.len()));
    lists.push(all);
    let ghost mut h: Seq<Seq<Seq<int>>> = seq![groups_of(lists@)];
    assert(groups_of(lists@) =~= seq![all_numbers(vs.len())]);
    let mut ended = false;
    while lists.len() < target && !ended
        invariant
            vs == vectors@,
            1 <= lists@.len() <= most_groups(target as int),
            lists_ok(lists@, vs.len() as int),
            is_history(vs, h),
            stops_at(h, target as int),
            h.last() == groups_of(lists@),
            ended ==> is_finished(groups_of(lists@), target as int),
        decreases target - lists@.len() + (if ended { 0int } else { 1int }),
    {
        let best = longest(&lists);
        if lists[best].len() > LANES {
            split_group(vectors, &mut lists, best);
            proof {
                lemma_history_grows(vs, h, target as int, groups_of(lists@));
                h = h.push(groups_of(lists@));
            }
        } else {
            assert(groups_of(lists@)[best as int].len() <= LANES);
            ended = true;
        }
    }
    lists
}

/// Quotient rounded towards zero.
pub open spec fn quotient(a: int, n: int) -> int {
    if a >= 0 {
        a / n
    } else {
        -((-a) / n)
    }
}

/// The sum of a coordinate over some vectors.
pub open spec fn coord_sum(vs: Seq<[i16; STORE_DIM]>, ids: Seq<int>, d: int) -> int
    decreases ids.len(),
{
    if ids.len() == 0 {
        0
    } else {
        coord_sum(vs, ids.drop_last(), d) + vs[ids.last()]@[d]
    }
}

/// The centre of some vectors: the mean of each coordinate that counts.
pub open spec fn centre(vs: Seq<[i16; STORE_DIM]>, ids: Seq<int>) -> Seq<i16> {
    Seq::new(
        STORE_DIM as nat,
        |d: int|
            if d < DIM {
                quotient(coord_sum(vs, ids, d), ids.len() as int) as i16
            } else {
                0i16
            },
    )
}

proof fn lemma_sum_bound(vs: Seq<[i16; STORE_DIM]>, ids: Seq<int>, d: int)
    ensures
        -32_768 * ids.len() <= coord_sum(vs, ids, d) <= 32_767 * ids.len(),
    decreases ids.len(),
{
    if ids.len() > 0 {
        lemma_sum_bound(vs, ids.drop_last(), d);
    }
}

/// The sum of a coordinate over some vectors.
fn sum_coord(vectors: &Vec<[i16; STORE_DIM]>, indices: &Vec<usize>, d: usize) -> (r: i64)
    requires
        d < STORE_DIM,
        indices@.len() <= u32::MAX,
        forall|k: int| 0 <= k < indices@.len() ==> #[trigger] indices@[k] < vectors@.len(),
    ensures
        r == coord_sum(vectors@, numbers(indices@), d as int),
{
    let ghost ids = numbers(indices@);
    let mut sum: i64 = 0;
    let mut k: usize = 0;
    while k < indices.len()
        invariant
            d < STORE_DIM,
            ids == numbers(indices@),
            indices@.len() <= u32::MAX,
            forall|k: int| 0 <= k < indices@.len() ==> #[trigger] indices@[k] < vectors@.len(),
            k <= indices@.len(),
            sum == coord_sum(vectors@, ids.take(k as int), d as int),
        decreases indices@.len() - k,
    {
        let i: usize = indices[k];
        let v: [i16; STORE_DIM] = vectors[i];
        proof {
            lemma_sum_bound(vectors@, ids.take(k as int), d as int);
            assert(ids.take(k + 1).drop_last() =~= ids.take(k as int));
            assert(ids.take(k + 1).last() == i);
        }
        sum += v[d] as i64;
        k += 1;
    }
    assert(ids.take(indices@.len() as int) =~= ids);
    sum
}

/// The centre of some vectors.
pub fn centroid_of(vectors: &Vec<[i16; STORE_DIM]>, indices: &Vec<usize>) -> (r: [i16; STORE_DIM])
    requires
        0 < indices@.len() <= u32::MAX,
        forall|k: int| 0 <= k < indices@.len() ==> #[trigger] indices@[k] < vectors@.len(),
    ensures
        r@ == centre(vectors@, numbers(indices@)),
{
    let ghost ids = numbers(indices@);
    let n: i64 = indices.len() as i64;
    let mut out: [i16; STORE_DIM] = [0i16; STORE_DIM];
    let mut d: usize = 0;
    while d < DIM
        invariant
            d <= DIM,
            0 < indices@.len() <= u32::MAX,
            n == indices@.len(),
            ids == numbers(indices@),
            forall|k: int| 0 <= k < indices@.len() ==> #[trigger] indices@[k] < vectors@.len(),
            out@.len() == STORE_DIM,
            forall|j: int|
                0 <= j < d ==> #[trigger] out@[j] == quotient(
                    coord_sum(vectors@, ids, j),
                    ids.len() as int,
                ) as i16,
            forall|j: int| d <= j < STORE_DIM ==> #[trigger] out@[j] == 0,
        decreases DIM - d,
    {
        let s: i64 = sum_coord(vectors, indices, d);
        proof {
            lemma_sum_bound(vectors@, ids, d as int);
            lemma_quotient_bound(s as int, n as int);
        }
        let m: i64 = if s >= 0 {
            s / n
        } else {
            -((-s) / n)
        };
        out[d] = m as i16;
        d += 1;
    }
    assert(out@ =~= centre(vectors@, ids));
    out
}

proof fn lemma_quotient_bound(s: int, n: int)
    requires
        n > 0,
        -32_768 * n <= s <= 32_767 * n,
    ensures
        -32_768 <= quotient(s, n) <= 32_767,
{
    if s >= 0 {
        assert(s / n <= 32_767) by (nonlinear_arith)
            requires
                n > 0,
                0 <= s <= 32_767 * n,
        ;
        assert(s / n >= 0) by (nonlinear_arith)
            requires
                n > 0,
                0 <= s,
        ;
    } else {
        let t = -s;
        assert(t / n <= 32_768) by (nonlinear_arith)
            requires
                n > 0,
                0 <= t <= 32_768 * n,
        ;
        assert(t / n >= 0) by (nonlinear_arith)
            requires
                n > 0,
                0 <= t,
        ;
    }
}

/// Whether `ord` lists the same vectors, those closest to a centre first.
pub open spec fn is_centred(
    vs: Seq<[i16; STORE_DIM]>,
    ids: Seq<int>,
    centroid: Seq<i16>,
    ord: Seq<int>,
) -> bool {
    &&& ord.to_multiset() == ids.to_multiset()
    &&& ord.len() == ids.len()
    &&& forall|j: int, k: int|
        0 <= j <= k < ord.len() ==> distance(vs[#[trigger] ord[j]]@, centroid) <= distance(
            vs[#[trigger] ord[k]]@,
            centroid,
        )
}

/// Lists vectors by their distance to a centre.
pub fn sort_by_centre(
    vectors: &Vec<[i16; STORE_DIM]>,
    indices: &Vec<usize>,
    centroid: &[i16; STORE_DIM],
) -> (r: Vec<usize>)
    requires
        forall|k: int| 0 <= k < indices@.len() ==> #[trigger] indices@[k] < vectors@.len(),
    ensures
        is_centred(vectors@, numbers(indices@), centroid@, numbers(r@)),
        forall|k: int| 0 <= k < r@.len() ==> #[trigger] r@[k] < vectors@.len(),
{
    let mut keyed: Vec<(i64, usize)> = Vec::new();
    let mut k: usize = 0;
    while k < indices.len()
        invariant
            forall|k: int| 0 <= k < indices@.len() ==> #[trigger] indices@[k] < vectors@.len(),
            k <= indices@.len(),
            keyed@.len() == k,
            forall|j: int|
                0 <= j < k ==> (#[trigger] keyed@[j]).1 == indices@[j] && keyed@[j].0 == distance(
                    vectors@[indices@[j] as int]@,
                    centroid@,
                ),
        decreases indices@.len() - k,
    {
        let i: usize = indices[k];
        let d: i64 = distance_qv(&vectors[i], centroid);
        keyed.push((d, i));
        k += 1;
    }
    let ghost before = keyed@;
    sort_by_first(&mut keyed);
    let ghost after = keyed@;
    let ghost second = |e: (i64, usize)| e.1 as int;
    proof {
        lemma_map_multiset(before, after, second);
        assert(before.map_values(second) =~= numbers(indices@));
        before.to_multiset_ensures();
        after.to_multiset_ensures();
        assert forall|j: int| 0 <= j < after.len() implies (#[trigger] after[j]).1 < vectors@.len()
            && after[j].0 == distance(vectors@[after[j].1 as int]@, centroid@) by {
            assert(after.contains(after[j]));
            assert(after.to_multiset().count(after[j]) > 0);
            assert(before.to_multiset().count(after[j]) > 0);
            assert(before.contains(after[j]));
            let m = choose|m: int| 0 <= m < before.len() && before[m] == after[j];
            assert(before[m].1 == indices@[m]);
        }
    }
    let mut out: Vec<usize> = Vec::new();
    let mut k: usize = 0;
    while k < keyed.len()
        invariant
            keyed@ == after,
            k <= after.len(),
            out@.len() == k,
            forall|j: int| 0 <= j < k ==> #[trigger] out@[j] == after[j].1,
        decreases after.len() - k,
    {
        out.push(keyed[k].1);
        k += 1;
    }
    proof {
        let ord = numbers(out@);
        assert(ord =~= after.map_values(second));
        assert forall|j: int, k: int| 0 <= j <= k < ord.len() implies distance(
            vectors@[#[trigger] ord[j]]@,
            centroid@,
        ) <= distance(vectors@[#[trigger] ord[k]]@, centroid@) by {
            assert(after[j].0 <= after[k].0);
        }
    }
    out
}

/// What fills the last block of a cluster up.
pub open spec fn empty_slot() -> Slot {
    Slot { vec: Seq::new(DIM as nat, |d: int| 0i16), label: 0 }
}

/// The number of blocks of the first `c` groups.
pub open spec fn blocks_before(groups: Seq<Seq<int>>, c: int) -> int
    decreases c,
{
    if c <= 0 {
        0
    } else {
        blocks_before(groups, c - 1) + padded(groups[c - 1].len() as int) / 8
    }
}

/// Whether the blocks from `first` on hold the vectors `ord`.
pub open spec fn holds(inp: Input, slots: Seq<Slot>, first: int, ord: Seq<int>) -> bool {
    &&& 8 * first + padded(ord.len() as int) <= slots.len()
    &&& forall|k: int|
        8 * first <= k < 8 * first + padded(ord.len() as int) ==> #[trigger] slots[k] == (if k - 8
            * first < ord.len() {
            inp.slot(ord[k - 8 * first])
        } else {
            empty_slot()
        })
}

/// Whether a cluster is made of a group whose blocks begin at `first`.
pub open spec fn is_cluster(
    inp: Input,
    ids: Seq<int>,
    first: int,
    x: Cluster,
    slots: Seq<Slot>,
) -> bool {
    let c = centre(inp.vectors, ids);
    &&& x.centroid == c
    &&& x.min == box_low(inp.vectors, ids)
    &&& x.max == box_high(inp.vectors, ids)
    &&& x.first == first
    &&& x.end == first + padded(ids.len() as int) / 8
    &&& x.count == ids.len()
    &&& exists|ord: Seq<int>| #[trigger]
        is_centred(inp.vectors, ids, c, ord) && holds(inp, slots, first, ord)
}

/// Whether a cluster index is made of groups.
pub open spec fn is_cluster_index(inp: Input, groups: Seq<Seq<int>>, x: Clusters) -> bool {
    &&& x.clusters.len() == groups.len()
    &&& x.slots.len() == 8 * blocks_before(groups, groups.len() as int)
    &&& forall|c: int|
        0 <= c < groups.len() ==> is_cluster(
            inp,
            groups[c],
            blocks_before(groups, c),
            #[trigger] x.clusters[c],
            x.slots,
        )
}

/// Groups come one behind the other.
pub proof fn lemma_blocks_before(groups: Seq<Seq<int>>, a: int, b: int)
    requires
        0 <= a <= b <= groups.len(),
    ensures
        0 <= blocks_before(groups, a) <= blocks_before(groups, b),
        a < b ==> blocks_before(groups, a) + padded(groups[a].len() as int) / 8 <= blocks_before(
            groups,
            b,
        ),
    decreases b,
{
    if a < b {
        lemma_blocks_before(groups, a, b - 1);
    } else if b > 0 {
        lemma_blocks_before(groups, b - 1, b - 1);
    }
}

/// A cluster index under construction.
pub struct Clustering {
    pub centroids: Vec<[i16; STORE_DIM]>,
    pub mins: Vec<[i16; STORE_DIM]>,
    pub maxs: Vec<[i16; STORE_DIM]>,
    pub offsets: Vec<u32>,
    pub counts: Vec<u32>,
    pub blocks: Vec<([i16; STORE_DIM], u8)>,
}

impl Clustering {
    /// Whether the tables belong together.
    pub open spec fn wf(&self) -> bool {
        let n = self.centroids@.len();
        &&& self.mins@.len() == n
        &&& self.maxs@.len() == n
        &&& self.offsets@.len() == n + 1
        &&& self.counts@.len() == n
        &&& self.blocks@.len() % 8 == 0
    }

    /// The cluster index as it is stored.
    pub open spec fn stored(&self) -> Clusters {
        Clusters {
            clusters: Seq::new(
                self.centroids@.len(),
                |c: int|
                    Cluster {
                        centroid: self.centroids@[c]@,
                        min: self.mins@[c]@,
                        max: self.maxs@[c]@,
                        first: self.offsets@[c],
                        end: self.offsets@[c + 1],
                        count: self.counts@[c],
                    },
            ),
            slots: slots_in(self.blocks@),
        }
    }
}

/// The slots that blocks stand for.
pub open spec fn slots_in(blocks: Seq<([i16; STORE_DIM], u8)>) -> Seq<Slot> {
    blocks.map_values(|b: ([i16; STORE_DIM], u8)| block_slot(b))
}

/// Appends the vectors of a cluster.
fn push_cluster(
    vectors: &Vec<[i16; STORE_DIM]>,
    labels: &Vec<u8>,
    indices: &Vec<usize>,
    blocks: &mut Vec<([i16; STORE_DIM], u8)>,
)
    requires
        labels@.len() == vectors@.len(),
        forall|k: int| 0 <= k < indices@.len() ==> #[trigger] indices@[k] < vectors@.len(),
        old(blocks)@.len() % 8 == 0,
    ensures
        extends(old(blocks)@, final(blocks)@),
        final(blocks)@.len() == old(blocks)@.len() + padded(indices@.len() as int),
        holds(
            Input { vectors: vectors@, labels: labels@ },
            slots_in(final(blocks)@),
            old(blocks)@.len() as int / 8,
            numbers(indices@),
        ),
{
    let ghost at = blocks@.len() as int;
    let filler: ([i16; STORE_DIM], u8) = ([0i16; STORE_DIM], 0);
    push_blocks(vectors, labels, indices, filler, blocks);
    proof {
        let n = indices@.len() as int;
        let ids = numbers(indices@);
        let inp = Input { vectors: vectors@, labels: labels@ };
        let slots = slots_in(blocks@);
        assert(block_slot(filler).vec =~= empty_slot().vec);
        assert forall|k: int| at <= k < at + padded(n) implies #[trigger] slots[k] == (if k - at
            < ids.len() {
            inp.slot(ids[k - at])
        } else {
            empty_slot()
        }) by {
            assert(slots[k] == block_slot(blocks@[k]));
            if k - at < ids.len() {
                assert(slots[k].vec =~= inp.slot(ids[k - at]).vec);
            }
        }
    }
}

/// Clusters stay what they are when more blocks are appended.
proof fn lemma_holds_same(
    inp: Input,
    a: Seq<Slot>,
    b: Seq<Slot>,
    first: int,
    ord: Seq<int>,
)
    requires
        extends(a, b),
        0 <= first,
        holds(inp, a, first, ord),
    ensures
        holds(inp, b, first, ord),
{
    assert forall|k: int|
        8 * first <= k < 8 * first + padded(ord.len() as int) implies #[trigger] b[k] == (if k - 8
        * first < ord.len() {
        inp.slot(ord[k - 8 * first])
    } else {
        empty_slot()
    }) by {
        assert(b[k] == a[k]);
    }
}

/// The first `n` clusters stay what they are when more blocks are appended.
proof fn lemma_clusters_kept(
    inp: Input,
    groups: Seq<Seq<int>>,
    n: int,
    a: Seq<Cluster>,
    old_slots: Seq<Slot>,
    b: Seq<Cluster>,
    new_slots: Seq<Slot>,
)
    requires
        0 <= n <= groups.len(),
        n <= a.len(),
        n <= b.len(),
        extends(old_slots, new_slots),
        forall|j: int| 0 <= j < n ==> #[trigger] b[j] == a[j],
        forall|j: int|
            0 <= j < n ==> is_cluster(
                inp,
                groups[j],
                blocks_before(groups, j),
                #[trigger] a[j],
                old_slots,
            ),
    ensures
        forall|j: int|
            0 <= j < n ==> is_cluster(
                inp,
                groups[j],
                blocks_before(groups, j),
                #[trigger] b[j],
                new_slots,
            ),
{
    assert forall|j: int| 0 <= j < n implies is_cluster(
        inp,
        groups[j],
        blocks_before(groups, j),
        #[trigger] b[j],
        new_slots,
    ) by {
        let ids = groups[j];
        let first = blocks_before(groups, j);
        assert(is_cluster(inp, ids, first, a[j], old_slots));
        let ord = choose|ord: Seq<int>| #[trigger]
            is_centred(inp.vectors, ids, centre(inp.vectors, ids), ord) && holds(
                inp,
                old_slots,
                first,
                ord,
            );
        lemma_blocks_before(groups, 0, j);
        lemma_holds_same(inp, old_slots, new_slots, first, ord);
    }
}

/// Makes the clusters of some groups.
pub fn make_clusters(
    vectors: &Vec<[i16; STORE_DIM]>,
    labels: &Vec<u8>,
    lists: &Vec<Vec<usize>>,
) -> (r: Clustering)
    requires
        labels@.len() == vectors@.len(),
        lists_ok(lists@, vectors@.len() as int),
        forall|c: int| 0 <= c < lists@.len() ==> 0 < (#[trigger] lists@[c])@.len(),
        blocks_before(groups_of(lists@), lists@.len() as int) <= 0x1fff_ffff,
    ensures
        r.wf(),
        is_cluster_index(
            Input { vectors: vectors@, labels: labels@ },
            groups_of(lists@),
            r.stored(),
        ),
{
    let ghost inp = Input { vectors: vectors@, labels: labels@ };
    let ghost groups = groups_of(lists@);
    let mut r = Clustering {
        centroids: Vec::new(),
        mins: Vec::new(),
        maxs: Vec::new(),
        offsets: Vec::new(),
        counts: Vec::new(),
        blocks: Vec::new(),
    };
    r.offsets.push(0);
    let mut c: usize = 0;
    while c < lists.len()
        invariant
            inp == (Input { vectors: vectors@, labels: labels@ }),
            groups == groups_of(lists@),
            labels@.len() == vectors@.len(),
            lists_ok(lists@, vectors@.len() as int),
            forall|c: int| 0 <= c < lists@.len() ==> 0 < (#[trigger] lists@[c])@.len(),
            blocks_before(groups, lists@.len() as int) <= 0x1fff_ffff,
            c <= lists@.len(),
            r.wf(),
            r.centroids@.len() == c,
            r.blocks@.len() == 8 * blocks_before(groups, c as int),
            r.offsets@[c as int] == blocks_before(groups, c as int),
            forall|j: int|
                0 <= j < c ==> is_cluster(
                    inp,
                    groups[j],
                    blocks_before(groups, j),
                    #[trigger] r.stored().clusters[j],
                    slots_in(r.blocks@),
                ),
        decreases lists@.len() - c,
    {
        let ghost before = r;
        let ghost old_slots = slots_in(r.blocks@);
        let ghost ids = groups[c as int];
        let ghost first = blocks_before(groups, c as int);
        let list: &Vec<usize> = &lists[c];
        proof {
            lemma_blocks_before(groups, c as int, lists@.len() as int);
            lemma_blocks_before(groups, c + 1, lists@.len() as int);
            assert(ids == numbers(list@));
            assert forall|k: int| 0 <= k < list@.len() implies #[trigger] list@[k]
                < vectors@.len() by {
                assert(lists@[c as int]@[k] < vectors@.len());
            }
        }
        let centroid = centroid_of(vectors, list);
        let (lo, hi) = bounds(vectors, list);
        let ord = sort_by_centre(vectors, list, &centroid);
        push_cluster(vectors, labels, &ord, &mut r.blocks);
        r.centroids.push(centroid);
        r.mins.push(lo);
        r.maxs.push(hi);
        r.counts.push(list.len() as u32);
        let end: u32 = r.offsets[c] + ((list.len() as u64 + 7) / 8) as u32;
        r.offsets.push(end);
        proof {
            let new_slots = slots_in(r.blocks@);
            let x = r.stored().clusters;
            assert forall|k: int| 0 <= k < old_slots.len() implies #[trigger] new_slots[k]
                == old_slots[k] by {
                assert(r.blocks@[k] == before.blocks@[k]);
            }
            assert(holds(inp, new_slots, first, numbers(ord@)));
            assert(is_cluster(inp, ids, first, x[c as int], new_slots)) by {
                assert(x[c as int].end == first + padded(ids.len() as int) / 8);
                assert(is_centred(vectors@, ids, centre(vectors@, ids), numbers(ord@)));
            }
            assert forall|j: int| 0 <= j < c implies #[trigger] x[j]
                == before.stored().clusters[j] by {}
            lemma_clusters_kept(
                inp,
                groups,
                c as int,
                before.stored().clusters,
                old_slots,
                x,
                new_slots,
            );
        }
        c += 1;
    }
    r
}

} // verus!
