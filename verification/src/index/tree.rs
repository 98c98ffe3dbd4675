//! What the searches share: the order in which the children of a node are visited, the order in
//! which partitions are visited, and the places of slots in the list of all slots.

use vstd::prelude::*;
use crate::index::distance::{distance, gap, gap_is_lower_bound, key_of};
use crate::index::format::is_clusters;
use crate::index::model::{Forest, Slot};
use crate::index::nearest::{explained, lemma_offer, lemma_skip_far, span};
use crate::index::reader::IndexReader;
use crate::index::shortlist::Best;
use crate::STORE_DIM;

verus! {

/// How many postponed nodes a walk down a tree can remember.
pub const STACK_ROOM: usize = 128;

/// The short list after the slots from `lo` to `hi` were offered in turn.
pub open spec fn offer(slots: Seq<Slot>, q: Seq<i16>, b: Best, lo: int, hi: int) -> Best
    decreases hi - lo,
{
    if hi <= lo {
        b
    } else {
        offer(slots, q, b, lo, hi - 1).insert(
            distance(slots[hi - 1].vec, q) as i64,
            slots[hi - 1].label,
        )
    }
}

impl Forest {
    /// Squared gap between a query and the box of a node.
    pub open spec fn node_gap(self, q: Seq<i16>, i: int) -> int {
        gap(q, self.nodes[i].min, self.nodes[i].max)
    }

    /// Squared gap between a query and the box of a partition.
    pub open spec fn part_gap(self, q: Seq<i16>, p: int) -> int {
        gap(q, self.parts[p].min, self.parts[p].max)
    }

    /// The child that is visited first: the closer one, or the left one of two equally close.
    pub open spec fn near(self, q: Seq<i16>, i: int) -> int {
        let n = self.nodes[i];
        if self.node_gap(q, n.left as int) <= self.node_gap(q, n.right as int) {
            n.left as int
        } else {
            n.right as int
        }
    }

    /// The other child.
    pub open spec fn far(self, q: Seq<i16>, i: int) -> int {
        let n = self.nodes[i];
        if self.node_gap(q, n.left as int) <= self.node_gap(q, n.right as int) {
            n.right as int
        } else {
            n.left as int
        }
    }

    /// The number of nodes below and including node `i`.
    pub open spec fn weight(self, i: int) -> nat
        decreases self.nodes.len() - i,
    {
        if self.has_node(i) && self.splits(i) {
            1 + self.weight(self.nodes[i].left as int) + self.weight(self.nodes[i].right as int)
        } else {
            1
        }
    }

    /// The partition that a query belongs to, or `-1`.
    pub open spec fn home_of(self, q: Seq<i16>) -> int {
        self.home(key_of(q))
    }

    /// Whether `order` lists the partitions that are still worth visiting behind the query's own,
    /// closest first. Equally close ones may come in any order.
    pub open spec fn is_tour(self, q: Seq<i16>, ceiling: int, order: Seq<int>) -> bool {
        &&& order.no_duplicates()
        &&& forall|k: int|
            0 <= k < order.len() ==> {
                &&& 0 <= #[trigger] order[k] < self.parts.len()
                &&& order[k] != self.home_of(q)
                &&& self.part_gap(q, order[k]) < ceiling
            }
        &&& forall|p: int|
            0 <= p < self.parts.len() && p != self.home_of(q) && self.part_gap(q, p) < ceiling
                ==> #[trigger] order.contains(p)
        &&& forall|j: int, k: int|
            0 <= j <= k < order.len() ==> self.part_gap(q, #[trigger] order[j]) <= self.part_gap(
                q,
                #[trigger] order[k],
            )
    }

    /// Where the slots of partition `p` begin among all slots.
    pub open spec fn part_base(self, p: int) -> int {
        self.points_before(p).len() as int
    }

    /// The numbers of the slots of partition `p`.
    pub open spec fn part_span(self, p: int) -> Set<int> {
        span(self.part_base(p), self.part_base(p) + self.points(self.parts[p].root as int).len())
    }
}

/// The number of nodes below the postponed ones.
pub open spec fn stack_weight(f: Forest, stack: Seq<(i32, i64)>) -> nat
    decreases stack.len(),
{
    if stack.len() == 0 {
        0
    } else {
        stack_weight(f, stack.drop_last()) + f.weight(stack.last().0 as int)
    }
}

/// Whether all postponed nodes exist.
pub open spec fn stack_ok(f: Forest, stack: Seq<(i32, i64)>) -> bool {
    forall|k: int| 0 <= k < stack.len() ==> f.has_node((#[trigger] stack[k]).0 as int)
}

/// Whether the slots below node `i` stand at `base` and after in `pts`.
pub open spec fn placed(f: Forest, pts: Seq<Slot>, i: int, base: int) -> bool {
    &&& 0 <= base
    &&& base + f.points(i).len() <= pts.len()
    &&& pts.subrange(base, base + f.points(i).len()) == f.points(i)
}

/// Whether no slot below node `i` is closer than `bound`.
pub open spec fn bounded(f: Forest, q: Seq<i16>, i: int, bound: int) -> bool {
    forall|k: int|
        0 <= k < f.points(i).len() ==> bound <= distance((#[trigger] f.points(i)[k]).vec, q)
}

/// The numbers of the slots below node `i` when they stand at `base`.
pub open spec fn node_span(f: Forest, i: int, base: int) -> Set<int> {
    span(base, base + f.points(i).len())
}

/// A node whose box holds its slots is no closer than its gap.
pub proof fn lemma_gap_bounds(f: Forest, q: Seq<i16>, i: int)
    requires
        f.boxed(i),
    ensures
        bounded(f, q, i, f.node_gap(q, i)),
{
    assert forall|k: int| 0 <= k < f.points(i).len() implies f.node_gap(q, i) <= distance(
        (#[trigger] f.points(i)[k]).vec,
        q,
    ) by {
        gap_is_lower_bound(f.points(i)[k].vec, q, f.nodes[i].min, f.nodes[i].max);
    }
}

/// The slots below the two children stand side by side.
pub proof fn lemma_children_placed(f: Forest, pts: Seq<Slot>, i: int, base: int)
    requires
        f.has_node(i),
        f.splits(i),
        placed(f, pts, i, base),
    ensures
        ({
            let l = f.nodes[i].left as int;
            let r = f.nodes[i].right as int;
            let mid = base + f.points(l).len();
            &&& placed(f, pts, l, base)
            &&& placed(f, pts, r, mid)
            &&& node_span(f, i, base) == node_span(f, l, base).union(node_span(f, r, mid))
            &&& node_span(f, l, base).disjoint(node_span(f, r, mid))
        }),
{
    let l = f.nodes[i].left as int;
    let r = f.nodes[i].right as int;
    let a = f.points(l);
    let b = f.points(r);
    let all = pts.subrange(base, base + f.points(i).len());
    assert(f.points(i) == a + b);
    assert(pts.subrange(base, base + a.len()) =~= all.subrange(0, a.len() as int));
    assert(all.subrange(0, a.len() as int) =~= a);
    assert(pts.subrange(base + a.len(), base + a.len() + b.len()) =~= all.subrange(
        a.len() as int,
        (a.len() + b.len()) as int,
    ));
    assert(all.subrange(a.len() as int, (a.len() + b.len()) as int) =~= b);
    assert(node_span(f, i, base) =~= node_span(f, l, base).union(node_span(f, r, base + a.len())));
}

/// Where the closer and the other child stand.
pub open spec fn near_base(f: Forest, q: Seq<i16>, i: int, base: int) -> int {
    if f.near(q, i) == f.nodes[i].left {
        base
    } else {
        base + f.points(f.nodes[i].left as int).len()
    }
}

pub open spec fn far_base(f: Forest, q: Seq<i16>, i: int, base: int) -> int {
    if f.near(q, i) == f.nodes[i].left {
        base + f.points(f.nodes[i].left as int).len()
    } else {
        base
    }
}

pub proof fn lemma_near_far_placed(f: Forest, q: Seq<i16>, pts: Seq<Slot>, i: int, base: int)
    requires
        f.has_node(i),
        f.splits(i),
        placed(f, pts, i, base),
    ensures
        ({
            let n = f.near(q, i);
            let m = f.far(q, i);
            let nb = near_base(f, q, i, base);
            let mb = far_base(f, q, i, base);
            &&& placed(f, pts, n, nb)
            &&& placed(f, pts, m, mb)
            &&& node_span(f, i, base) == node_span(f, n, nb).union(node_span(f, m, mb))
            &&& node_span(f, n, nb).disjoint(node_span(f, m, mb))
        }),
{
    lemma_children_placed(f, pts, i, base);
    let l = f.nodes[i].left as int;
    let r = f.nodes[i].right as int;
    let mid = base + f.points(l).len();
    assert(node_span(f, r, mid).union(node_span(f, l, base)) =~= node_span(f, l, base).union(
        node_span(f, r, mid),
    ));
}

/// Slots that are no closer than the ceiling may be counted as offered.
pub proof fn lemma_skip_node(
    f: Forest,
    q: Seq<i16>,
    pts: Seq<Slot>,
    i: int,
    base: int,
    bound: int,
    b: Best,
    cov: Set<int>,
)
    requires
        placed(f, pts, i, base),
        bounded(f, q, i, bound),
        bound >= b.ceiling(),
        explained(pts, q, b, cov),
    ensures
        explained(pts, q, b, cov.union(node_span(f, i, base))),
{
    assert forall|j: int| #[trigger] node_span(f, i, base).contains(j) implies 0 <= j < pts.len()
        && distance(pts[j].vec, q) >= b.ceiling() by {
        let k = j - base;
        assert(pts.subrange(base, base + f.points(i).len())[k] == pts[j]);
        assert(f.points(i)[k] == pts[j]);
    }
    lemma_skip_far(pts, q, b, cov, node_span(f, i, base));
}

/// Offering the slots from `lo` to `hi`, which stand at `base` and after in `pts`.
pub proof fn lemma_offer_range(
    slots: Seq<Slot>,
    q: Seq<i16>,
    pts: Seq<Slot>,
    b: Best,
    lo: int,
    hi: int,
    base: int,
    cov: Set<int>,
)
    requires
        0 <= lo <= hi <= slots.len(),
        0 <= base,
        base + (hi - lo) <= pts.len(),
        pts.subrange(base, base + (hi - lo)) == slots.subrange(lo, hi),
        explained(pts, q, b, cov),
        cov.disjoint(span(base, base + (hi - lo))),
    ensures
        explained(pts, q, offer(slots, q, b, lo, hi), cov.union(span(base, base + (hi - lo)))),
    decreases hi - lo,
{
    let n = hi - lo;
    if n == 0 {
        assert(cov.union(span(base, base + n)) =~= cov);
    } else {
        assert(pts.subrange(base, base + n - 1) =~= pts.subrange(base, base + n).subrange(
            0,
            n - 1,
        ));
        assert(slots.subrange(lo, hi - 1) =~= slots.subrange(lo, hi).subrange(0, n - 1));
        lemma_offer_range(slots, q, pts, b, lo, hi - 1, base, cov);
        let mid = cov.union(span(base, base + n - 1));
        let id = base + n - 1;
        assert(pts[id] == pts.subrange(base, base + n)[n - 1]);
        assert(slots.subrange(lo, hi)[n - 1] == slots[hi - 1]);
        assert(span(base, base + n).contains(id));
        lemma_offer(pts, q, offer(slots, q, b, lo, hi - 1), mid, id);
        assert(mid.insert(id) =~= cov.union(span(base, base + n)));
    }
}

/// The slots of each partition stand in the list of all slots.
pub proof fn lemma_part_placed(f: Forest, p: int, n: int)
    requires
        0 <= p < n <= f.parts.len(),
    ensures
        placed(f, f.points_before(n), f.parts[p].root as int, f.part_base(p)),
    decreases n,
{
    let i = f.parts[p].root as int;
    let base = f.part_base(p);
    let whole = f.points_before(n);
    let before = f.points_before(n - 1);
    assert(whole == before + f.points(f.parts[n - 1].root as int));
    if p == n - 1 {
        assert(whole.subrange(base, base + f.points(i).len()) =~= f.points(i));
    } else {
        lemma_part_placed(f, p, n - 1);
        assert(whole.subrange(base, base + f.points(i).len()) =~= before.subrange(
            base,
            base + f.points(i).len(),
        ));
    }
}

/// The slots of two partitions have different numbers.
pub proof fn lemma_parts_disjoint(f: Forest, p: int, r: int)
    requires
        0 <= p < f.parts.len(),
        0 <= r < f.parts.len(),
        p != r,
    ensures
        f.part_span(p).disjoint(f.part_span(r)),
{
    if p < r {
        lemma_part_placed(f, p, r);
    } else {
        lemma_part_placed(f, r, p);
    }
}

/// Every slot belongs to a partition.
pub proof fn lemma_parts_cover(f: Forest, n: int, id: int) -> (p: int)
    requires
        0 <= n <= f.parts.len(),
        0 <= id < f.points_before(n).len(),
    ensures
        0 <= p < n,
        f.part_span(p).contains(id),
    decreases n,
{
    if id < f.points_before(n - 1).len() {
        lemma_parts_cover(f, n - 1, id)
    } else {
        n - 1
    }
}

/// A key leads to a partition or to none.
pub proof fn lemma_home_range(f: Forest, key: int, n: int)
    requires
        0 <= n <= f.parts.len(),
    ensures
        -1 <= f.home_before(key, n) < n,
    decreases n,
{
    if n > 0 {
        lemma_home_range(f, key, n - 1);
    }
}

/// Whether the trees are shallow enough for the walk to remember every postponed node.
pub open spec fn shallow(f: Forest) -> bool {
    forall|i: int| 0 <= i < f.nodes.len() ==> #[trigger] f.depth(i) <= STACK_ROOM
}

/// A partition whose box holds its slots is no closer than its gap.
pub proof fn lemma_part_bounds(f: Forest, q: Seq<i16>, p: int)
    requires
        f.part_boxed(p),
    ensures
        bounded(f, q, f.parts[p].root as int, f.part_gap(q, p)),
{
    let root = f.parts[p].root as int;
    assert forall|k: int| 0 <= k < f.points(root).len() implies f.part_gap(q, p) <= distance(
        (#[trigger] f.points(root)[k]).vec,
        q,
    ) by {
        gap_is_lower_bound(f.points(root)[k].vec, q, f.parts[p].min, f.parts[p].max);
    }
}

/// Whether slot `i` belongs to a partition of the tour from number `k` on.
pub open spec fn ahead(f: Forest, order: Seq<int>, k: int, i: int) -> bool {
    exists|j: int| k <= j < order.len() && #[trigger] f.part_span(order[j]).contains(i)
}

/// The slots that belong to no partition of the tour from number `k` on.
pub open spec fn covered(f: Forest, order: Seq<int>, k: int) -> Set<int> {
    Set::new(|i: int| 0 <= i < f.all_points().len() && !ahead(f, order, k, i))
}

/// The slots of the query's own partition.
pub open spec fn home_span(f: Forest, q: Seq<i16>) -> Set<int> {
    if f.home_of(q) >= 0 {
        f.part_span(f.home_of(q))
    } else {
        Set::empty()
    }
}

/// The slots ahead are no closer than the next partition.
pub proof fn lemma_tour_far(
    f: Forest,
    q: Seq<i16>,
    ceiling: int,
    order: Seq<int>,
    k: int,
    i: int,
)
    requires
        f.boxes_ok(),
        f.is_tour(q, ceiling, order),
        0 <= k < order.len(),
        0 <= i < f.all_points().len(),
        !covered(f, order, k).contains(i),
    ensures
        distance(f.all_points()[i].vec, q) >= f.part_gap(q, order[k]),
{
    let j = choose|j: int| k <= j < order.len() && #[trigger] f.part_span(order[j]).contains(i);
    lemma_in_part(f, q, order[j], i);
}

/// A slot of a partition is no closer than the partition.
pub proof fn lemma_in_part(f: Forest, q: Seq<i16>, p: int, i: int)
    requires
        f.boxes_ok(),
        0 <= p < f.parts.len(),
        f.part_span(p).contains(i),
    ensures
        0 <= i < f.all_points().len(),
        distance(f.all_points()[i].vec, q) >= f.part_gap(q, p),
{
    let pts = f.all_points();
    let root = f.parts[p].root as int;
    let base = f.part_base(p);
    lemma_part_placed(f, p, f.parts.len() as int);
    assert(f.part_boxed(p));
    lemma_part_bounds(f, q, p);
    assert(pts.subrange(base, base + f.points(root).len())[i - base] == pts[i]);
    assert(f.points(root)[i - base] == pts[i]);
}

/// The next partition of a tour.
pub proof fn lemma_tour_step(f: Forest, q: Seq<i16>, ceiling: int, order: Seq<int>, k: int)
    requires
        f.is_tour(q, ceiling, order),
        0 <= k < order.len(),
    ensures
        covered(f, order, k).disjoint(f.part_span(order[k])),
        covered(f, order, k + 1) == covered(f, order, k).union(f.part_span(order[k])),
{
    let p = order[k];
    lemma_part_placed(f, p, f.parts.len() as int);
    assert forall|i: int| covered(f, order, k + 1).contains(i) <==> covered(
        f,
        order,
        k,
    ).union(f.part_span(p)).contains(i) by {
        if f.part_span(p).contains(i) {
            if ahead(f, order, k + 1, i) {
                let j = choose|j: int|
                    k + 1 <= j < order.len() && #[trigger] f.part_span(order[j]).contains(i);
                lemma_parts_disjoint(f, p, order[j]);
            }
        } else if ahead(f, order, k, i) {
            let j = choose|j: int|
                k <= j < order.len() && #[trigger] f.part_span(order[j]).contains(i);
            assert(j != k);
            assert(ahead(f, order, k + 1, i));
        }
    }
    assert(covered(f, order, k + 1) =~= covered(f, order, k).union(f.part_span(p)));
}

/// Behind the last partition of a tour nothing is left.
pub proof fn lemma_tour_end(f: Forest, order: Seq<int>)
    ensures
        covered(f, order, order.len() as int) == span(0, f.all_points().len() as int),
{
    assert(covered(f, order, order.len() as int) =~= span(0, f.all_points().len() as int));
}

/// The slots that a tour leaves out are those of the query's own partition, and slots that are no
/// closer than the ceiling.
pub proof fn lemma_tour_left_out(f: Forest, q: Seq<i16>, ceiling: int, order: Seq<int>, i: int)
    requires
        f.boxes_ok(),
        f.is_tour(q, ceiling, order),
    ensures
        home_span(f, q).contains(i) ==> covered(f, order, 0).contains(i),
        covered(f, order, 0).contains(i) ==> home_span(f, q).contains(i) || distance(
            f.all_points()[i].vec,
            q,
        ) >= ceiling,
{
    let home = f.home_of(q);
    lemma_home_range(f, key_of(q), f.parts.len() as int);
    if home_span(f, q).contains(i) {
        lemma_in_part(f, q, home, i);
        if ahead(f, order, 0, i) {
            let j = choose|j: int|
                0 <= j < order.len() && #[trigger] f.part_span(order[j]).contains(i);
            lemma_parts_disjoint(f, home, order[j]);
        }
    } else if covered(f, order, 0).contains(i) {
        let p = lemma_parts_cover(f, f.parts.len() as int, i);
        if f.part_gap(q, p) < ceiling {
            assert(order.contains(p));
            let j = choose|j: int| 0 <= j < order.len() && order[j] == p;
            assert(f.part_span(order[j]).contains(i));
        }
        lemma_in_part(f, q, p, i);
    }
}

/// Before a tour begins, the slots that it leaves out count as offered.
pub proof fn lemma_tour_start(f: Forest, q: Seq<i16>, b: Best, order: Seq<int>, cov: Set<int>)
    requires
        f.boxes_ok(),
        f.is_tour(q, b.ceiling() as int, order),
        explained(f.all_points(), q, b, cov),
        cov == home_span(f, q),
    ensures
        explained(f.all_points(), q, b, covered(f, order, 0)),
{
    let pts = f.all_points();
    let far = covered(f, order, 0).difference(cov);
    assert forall|i: int| #[trigger] far.contains(i) implies 0 <= i < pts.len() && distance(
        pts[i].vec,
        q,
    ) >= b.ceiling() by {
        lemma_tour_left_out(f, q, b.ceiling() as int, order, i);
    }
    lemma_skip_far(pts, q, b, cov, far);
    assert forall|i: int| cov.contains(i) implies covered(f, order, 0).contains(i) by {
        lemma_tour_left_out(f, q, b.ceiling() as int, order, i);
    }
    assert(cov.union(far) =~= covered(f, order, 0));
}

/// Sorts pairs by their first component, as `slice::sort_unstable_by_key` does: the same pairs,
/// in an order in which the first components do not fall.
#[verifier::external_body]
pub(crate) fn sort_by_first(v: &mut Vec<(i64, usize)>)
    ensures
        final(v)@.to_multiset() == old(v)@.to_multiset(),
        forall|i: int, j: int| 0 <= i <= j < final(v)@.len() ==> final(v)@[i].0 <= final(v)@[j].0,
{
    v.sort_unstable_by_key(|e| e.0);
}

/// The partitions in a list of partitions with their gaps.
pub open spec fn parts_in(list: Seq<(i64, usize)>) -> Seq<int> {
    list.map_values(|e: (i64, usize)| e.1 as int)
}

/// Sorting a list of different partitions keeps each of them once.
proof fn lemma_sorted_list(a: Seq<(i64, usize)>, b: Seq<(i64, usize)>)
    requires
        a.to_multiset() == b.to_multiset(),
        a.no_duplicates(),
    ensures
        b.no_duplicates(),
        forall|e: (i64, usize)| #[trigger] a.contains(e) <==> b.contains(e),
{
    a.to_multiset_ensures();
    b.to_multiset_ensures();
    a.lemma_multiset_has_no_duplicates();
    b.lemma_multiset_has_no_duplicates_conv();
    assert forall|e: (i64, usize)| #[trigger] a.contains(e) <==> b.contains(e) by {
        assert(a.contains(e) <==> a.to_multiset().count(e) > 0);
        assert(b.contains(e) <==> b.to_multiset().count(e) > 0);
    }
}

/// Lists the partitions behind the query's own that are closer than `ceiling`, closest first.
pub fn tour(idx: &IndexReader, q: &[i16; STORE_DIM], home: i64, ceiling: i64) -> (r: Vec<
    (i64, usize),
>)
    requires
        idx.wf(),
        !is_clusters(idx.bytes()),
        home == idx.forest().home_of(q@),
    ensures
        idx.forest().is_tour(q@, ceiling as int, parts_in(r@)),
        forall|k: int|
            0 <= k < r@.len() ==> (#[trigger] r@[k]).1 < idx.forest().parts.len() && r@[k].0
                == idx.forest().part_gap(q@, r@[k].1 as int),
{
    let ghost f = idx.forest();
    let mut list: Vec<(i64, usize)> = Vec::new();
    let count: usize = idx.part_count() as usize;
    let mut p: usize = 0;
    while p < count
        invariant
            idx.wf(),
            !is_clusters(idx.bytes()),
            f == idx.forest(),
            home == f.home_of(q@),
            count == f.parts.len(),
            p <= count,
            forall|k: int|
                0 <= k < list@.len() ==> {
                    &&& (#[trigger] list@[k]).1 < p
                    &&& list@[k].0 == f.part_gap(q@, list@[k].1 as int)
                    &&& list@[k].1 != home
                    &&& list@[k].0 < ceiling
                },
            forall|j: int, k: int| 0 <= j < k < list@.len() ==> list@[j].1 < list@[k].1,
            forall|r: int|
                0 <= r < p && r != home && #[trigger] f.part_gap(q@, r) < ceiling ==> exists|
                    k: int,
                |
                    0 <= k < list@.len() && (#[trigger] list@[k]).1 == r,
        decreases count - p,
    {
        if p as i64 != home {
            let lb: i64 = idx.lower_bound_partition(p, q);
            if lb < ceiling {
                let ghost before = list@;
                list.push((lb, p));
                proof {
                    assert forall|r: int|
                        0 <= r < p + 1 && r != home && #[trigger] f.part_gap(q@, r)
                            < ceiling implies exists|k: int|
                        0 <= k < list@.len() && (#[trigger] list@[k]).1 == r by {
                        if r == p {
                            assert(list@[before.len() as int].1 == r);
                        } else {
                            let k = choose|k: int|
                                0 <= k < before.len() && (#[trigger] before[k]).1 == r;
                            assert(list@[k].1 == r);
                        }
                    }
                }
            }
        }
        p += 1;
    }
    let ghost unsorted = list@;
    sort_by_first(&mut list);
    proof {
        lemma_sorted_list(unsorted, list@);
        let order = parts_in(list@);
        assert forall|k: int| 0 <= k < list@.len() implies {
            &&& (#[trigger] list@[k]).1 < count
            &&& list@[k].0 == f.part_gap(q@, list@[k].1 as int)
            &&& list@[k].1 != home
            &&& list@[k].0 < ceiling
        } by {
            assert(list@.contains(list@[k]));
            assert(unsorted.contains(list@[k]));
        }
        assert(order.no_duplicates()) by {
            assert forall|i: int, j: int|
                0 <= i < order.len() && 0 <= j < order.len() && i != j implies order[i]
                != order[j] by {
                assert(list@[i] != list@[j]);
            }
        }
        assert forall|r: int|
            0 <= r < f.parts.len() && r != f.home_of(q@) && f.part_gap(q@, r)
                < ceiling implies #[trigger] order.contains(r) by {
            let k = choose|k: int| 0 <= k < unsorted.len() && (#[trigger] unsorted[k]).1 == r;
            assert(unsorted.contains(unsorted[k]));
            assert(list@.contains(unsorted[k]));
            let j = choose|j: int| 0 <= j < list@.len() && list@[j] == unsorted[k];
            assert(order[j] == r);
        }
    }
    list
}

} // verus!
