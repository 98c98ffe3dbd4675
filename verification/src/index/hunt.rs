//! The exact search. Once the short list is full of one label, trees that hold no other label are
//! set aside: they could bring closer candidates, but not another count. Only when the other label
//! does get in are they looked into after all.

use vstd::prelude::*;
use crate::index::distance::partition_key;
use crate::index::early::{labels_small, lemma_insert_small};
use crate::index::format::is_clusters;
use crate::index::model::{label_mask, Forest, Slot, LANES};
use crate::index::nearest::lemma_insert_sorted;
use crate::index::reader::{is_searchable, IndexReader};
use crate::index::shortlist::{best_of, lemma_insert_total, lemma_label_sum_bound, Best};
use crate::index::tree::{lemma_home_range, parts_in, stack_ok, stack_weight, tour, STACK_ROOM};
use crate::{K, STORE_DIM};

verus! {

/// How many trees can be set aside.
pub const PARK_LIMIT: usize = 256;

/// A search under way: the short list, the trees set aside with their gaps, and whether the list
/// has been full of one label (`anchor` labels of it fraudulent).
#[verifier::ext_equal]
pub struct Chase {
    pub best: Best,
    pub parked: Seq<(int, int)>,
    pub anchor: int,
    pub pinned: bool,
    pub draining: bool,
}

/// The mask of the label whose arrival would change the count.
pub open spec fn seek_mask(anchor: int) -> u8 {
    if anchor == 0 {
        2
    } else {
        1
    }
}

impl Chase {
    pub open spec fn fresh() -> Chase {
        Chase {
            best: Best::empty(),
            parked: Seq::empty(),
            anchor: 0,
            pinned: false,
            draining: false,
        }
    }

    /// Offers a candidate. The first time that the list is full of one label, the label is noted.
    pub open spec fn accepted(self, dist: i64, label: u8) -> Chase {
        if dist >= self.best.ceiling() {
            self
        } else {
            let b = self.best.insert(dist, label);
            if !self.pinned && !self.draining && b.ceiling() < i64::MAX && (b.total() == 0
                || b.total() == K) {
                Chase { best: b, pinned: true, anchor: b.total(), ..self }
            } else {
                Chase { best: b, ..self }
            }
        }
    }

    /// Whether a tree with the given labels can be set aside.
    pub open spec fn skips(self, kinds: u8) -> bool {
        self.pinned && !self.draining && self.best.total() == self.anchor && kinds & seek_mask(
            self.anchor,
        ) == 0
    }

    /// Whether the list no longer holds the one label alone.
    pub open spec fn is_unsettled(self) -> bool {
        self.pinned && self.best.total() != self.anchor
    }

    pub open spec fn park(self, node: int, bound: int) -> Chase {
        Chase { parked: self.parked.push((node, bound)), ..self }
    }
}

/// Offers the slots from `lo` to `hi`.
pub open spec fn sweep(slots: Seq<Slot>, q: Seq<i16>, h: Chase, lo: int, hi: int) -> Chase
    decreases hi - lo,
{
    if hi <= lo {
        h
    } else {
        sweep(slots, q, h, lo, hi - 1).accepted(
            crate::index::distance::distance(slots[hi - 1].vec, q) as i64,
            slots[hi - 1].label,
        )
    }
}

/// Explores the tree below node `i`, whose box is `bound` away, with room to postpone `room` nodes.
pub open spec fn dive(f: Forest, q: Seq<i16>, i: int, bound: int, room: int, h: Chase) -> Chase
    decreases f.nodes.len() - i,
{
    if bound >= h.best.ceiling() || !f.has_node(i) {
        h
    } else if h.skips(label_mask(f.points(i))) && h.parked.len() < PARK_LIMIT {
        h.park(i, bound)
    } else {
        let n = f.nodes[i];
        if n.is_leaf() {
            sweep(f.slots, q, h, n.first(), n.first() + n.len)
        } else if f.splits(i) {
            let near = f.near(q, i);
            let far = f.far(q, i);
            if f.node_gap(q, far) < h.best.ceiling() && room > 0 {
                dive(
                    f,
                    q,
                    far,
                    f.node_gap(q, far),
                    room,
                    dive(f, q, near, f.node_gap(q, near), room - 1, h),
                )
            } else {
                dive(f, q, near, f.node_gap(q, near), room, h)
            }
        } else {
            h
        }
    }
}

/// Explores the postponed nodes, the last one first.
pub open spec fn rewind(f: Forest, q: Seq<i16>, stack: Seq<(i32, i64)>, h: Chase) -> Chase
    decreases stack.len(),
{
    if stack.len() == 0 {
        h
    } else {
        rewind(
            f,
            q,
            stack.drop_last(),
            dive(
                f,
                q,
                stack.last().0 as int,
                stack.last().1 as int,
                STACK_ROOM - (stack.len() - 1),
                h,
            ),
        )
    }
}

/// Explores the trees of a list from number `k` on.
pub open spec fn drain(f: Forest, q: Seq<i16>, list: Seq<(int, int)>, k: int, h: Chase) -> Chase
    decreases list.len() - k,
{
    if k >= list.len() {
        h
    } else {
        drain(f, q, list, k + 1, dive(f, q, list[k].0, list[k].1, STACK_ROOM as int, h))
    }
}

/// Explores the trees that were set aside, without setting any aside again.
pub open spec fn flushed(f: Forest, q: Seq<i16>, h: Chase) -> Chase {
    let cleared = Chase { parked: Seq::empty(), pinned: false, ..h };
    if h.parked.len() == 0 {
        cleared
    } else {
        Chase {
            draining: false,
            ..drain(f, q, h.parked, 0, Chase { draining: true, ..cleared })
        }
    }
}

/// Explores the trees that were set aside, where they matter.
pub open spec fn settle(f: Forest, q: Seq<i16>, h: Chase) -> Chase {
    if h.is_unsettled() {
        flushed(f, q, h)
    } else {
        h
    }
}

/// Explores the query's own partition.
pub open spec fn hunt_home(f: Forest, q: Seq<i16>) -> Chase {
    let home = f.home_of(q);
    if home >= 0 {
        settle(f, q, dive(f, q, f.parts[home].root as int, 0, STACK_ROOM as int, Chase::fresh()))
    } else {
        Chase::fresh()
    }
}

/// Explores the partitions of a tour from number `k` on.
pub open spec fn hunt_tour(f: Forest, q: Seq<i16>, order: Seq<int>, k: int, h: Chase) -> Chase
    decreases order.len() - k,
{
    if k >= order.len() || f.part_gap(q, order[k]) >= h.best.ceiling() {
        h
    } else {
        hunt_tour(
            f,
            q,
            order,
            k + 1,
            settle(
                f,
                q,
                dive(
                    f,
                    q,
                    f.parts[order[k]].root as int,
                    f.part_gap(q, order[k]),
                    STACK_ROOM as int,
                    h,
                ),
            ),
        )
    }
}

/// What an exact search can return.
pub open spec fn hunt_result(f: Forest, q: Seq<i16>, count: int) -> bool {
    let home = hunt_home(f, q);
    exists|order: Seq<int>| #[trigger]
        f.is_tour(q, home.best.ceiling() as int, order) && count == settle(
            f,
            q,
            hunt_tour(f, q, order, 0, home),
        ).best.total()
}

/// The working state of an exact search.
pub struct Hunt {
    pub dist: [i64; K],
    pub tag: [u8; K],
    pub parked: Vec<(i32, i64)>,
    pub seen: u8,
    pub tally: u8,
    pub anchor: u8,
    pub seek: u8,
    pub pinned: bool,
    pub draining: bool,
}

/// The numbers behind a list of trees.
pub open spec fn ints(list: Seq<(i32, i64)>) -> Seq<(int, int)> {
    list.map_values(|e: (i32, i64)| (e.0 as int, e.1 as int))
}

impl View for Hunt {
    type V = Chase;

    open spec fn view(&self) -> Chase {
        Chase {
            best: best_of(self.dist, self.tag),
            parked: ints(self.parked@),
            anchor: self.anchor as int,
            pinned: self.pinned,
            draining: self.draining,
        }
    }
}

impl Hunt {
    /// Whether the running numbers agree with the short list.
    pub open spec fn wf(&self) -> bool {
        &&& self@.best.sorted()
        &&& labels_small(self@.best)
        &&& self.seen <= K
        &&& forall|k: int| 0 <= k < self.seen ==> #[trigger] self.dist@[k] < i64::MAX
        &&& forall|k: int|
            self.seen <= k < K ==> #[trigger] self.dist@[k] == i64::MAX && self.tag@[k] == 0
        &&& self.tally == self@.best.total()
        &&& self.pinned ==> self.seek == seek_mask(self.anchor as int)
        &&& self.parked@.len() <= PARK_LIMIT
    }

    pub fn fresh() -> (h: Hunt)
        ensures
            h.wf(),
            h@ == Chase::fresh(),
    {
        let h = Hunt {
            dist: [i64::MAX; K],
            tag: [0u8; K],
            parked: Vec::new(),
            seen: 0,
            tally: 0,
            anchor: 0,
            seek: 0,
            pinned: false,
            draining: false,
        };
        assert(h@ =~= Chase::fresh());
        proof {
            crate::index::shortlist::lemma_label_sum_uniform(h.tag@);
        }
        h
    }

    /// A candidate enters the list only below this distance.
    pub fn ceil(&self) -> (r: i64)
        ensures
            r == self@.best.ceiling(),
    {
        self.dist[K - 1]
    }

    /// Offers a candidate.
    pub fn accept(&mut self, d: i64, t: u8)
        requires
            old(self).wf(),
            t <= 1,
        ensures
            final(self).wf(),
            final(self)@ == old(self)@.accepted(d, t),
    {
        if d >= self.dist[K - 1] {
            return ;
        }
        let ghost b = self@.best;
        let ghost seen0 = self.seen;
        let ghost parked0 = self@.parked;
        proof {
            lemma_insert_sorted(b, d, t);
            lemma_insert_small(b, d, t);
            lemma_insert_total(b, d, t);
            lemma_label_sum_bound(b.labels);
            lemma_label_sum_bound(b.insert(d, t).labels);
        }
        let dropped: u8 = self.tag[K - 1];
        let full: bool = self.seen as usize == K;
        crate::index::shortlist::insert_best(d, t, &mut self.dist, &mut self.tag);
        let ghost n = b.insert(d, t);
        let ghost p = b.place(d, K - 1);
        assert(best_of(self.dist, self.tag) == n);
        if full {
            self.tally = self.tally + t - dropped;
        } else {
            self.seen = self.seen + 1;
            self.tally = self.tally + t;
        }
        proof {
            assert(b.dists[K - 1] > d);
            assert(p <= seen0);
            assert forall|k: int| 0 <= k < self.seen implies #[trigger] self.dist@[k]
                < i64::MAX by {
                if k < p {
                    assert(n.dists[k] == b.dists[k]);
                } else if k > p {
                    assert(n.dists[k] == b.dists[k - 1]);
                }
            }
            assert forall|k: int| self.seen <= k < K implies #[trigger] self.dist@[k] == i64::MAX
                && self.tag@[k] == 0 by {
                assert(n.dists[k] == b.dists[k - 1]);
                assert(n.labels[k] == b.labels[k - 1]);
            }
            assert(self.seen == K <==> n.ceiling() < i64::MAX);
        }
        if !self.pinned && !self.draining && self.seen as usize == K && (self.tally == 0
            || self.tally as usize == K) {
            self.pinned = true;
            self.anchor = self.tally;
            self.seek = if self.tally == 0 {
                2
            } else {
                1
            };
        }
        assert(self@.parked == parked0);
        assert(self@ =~= old(self)@.accepted(d, t));
    }

    /// Whether a tree with the given labels can be set aside.
    pub fn skippable(&self, kinds: u8) -> (r: bool)
        requires
            self.wf(),
        ensures
            r == self@.skips(kinds),
    {
        self.pinned && !self.draining && self.tally == self.anchor && kinds & self.seek == 0
    }

    /// Sets a tree aside, if there is room.
    pub fn stash(&mut self, node: i32, bound: i64) -> (r: bool)
        requires
            old(self).wf(),
        ensures
            final(self).wf(),
            r == (old(self)@.parked.len() < PARK_LIMIT),
            final(self)@ == (if r {
                old(self)@.park(node as int, bound as int)
            } else {
                old(self)@
            }),
    {
        if self.parked.len() < PARK_LIMIT {
            self.parked.push((node, bound));
            assert(self@ =~= old(self)@.park(node as int, bound as int));
            true
        } else {
            false
        }
    }

    /// Whether the list no longer holds the one label alone.
    pub fn unsettled(&self) -> (r: bool)
        requires
            self.wf(),
        ensures
            r == self@.is_unsettled(),
    {
        self.pinned && self.tally != self.anchor
    }

    /// The sum of the labels.
    pub fn verdict(&self) -> (r: u8)
        requires
            self.wf(),
        ensures
            r == self@.best.total(),
            r <= K,
    {
        proof {
            lemma_label_sum_bound(self.tag@);
        }
        crate::index::shortlist::sum_labels(&self.tag)
    }
}

/// Offers the slots of a leaf.
fn sweep_leaf(idx: &IndexReader, start_block: i32, len: i32, q: &[i16; STORE_DIM], hunt: &mut Hunt)
    requires
        idx.wf(),
        !is_clusters(idx.bytes()),
        start_block >= 0,
        len >= 0,
        start_block * LANES + len <= idx.forest().slots.len(),
        old(hunt).wf(),
        forall|s: int|
            start_block * LANES <= s < start_block * LANES + len ==> (
            #[trigger] idx.forest().slots[s]).label <= 1,
    ensures
        final(hunt).wf(),
        final(hunt)@ == sweep(
            idx.forest().slots,
            q@,
            old(hunt)@,
            start_block * LANES,
            start_block * LANES + len,
        ),
{
    let blocks = idx.block_count();
    let first: usize = start_block as usize * LANES;
    let total: usize = len as usize;
    let mut k: usize = 0;
    while k < total
        invariant
            idx.wf(),
            !is_clusters(idx.bytes()),
            first == start_block * LANES,
            total == len,
            k <= total,
            first + total <= idx.forest().slots.len(),
            idx.forest().slots.len() == blocks * LANES,
            blocks < 0x200_0000,
            forall|s: int| first <= s < first + total ==> (#[trigger] idx.slots()[s]).label <= 1,
            hunt.wf(),
            hunt@ == sweep(idx.forest().slots, q@, old(hunt)@, first as int, first + k),
        decreases total - k,
    {
        let d: i64 = idx.slot_distance(first + k, q);
        if d < hunt.ceil() {
            let label = idx.slot_label(first + k);
            hunt.accept(d, label);
        }
        k += 1;
    }
}

/// Explores one tree.
fn explore(idx: &IndexReader, root: i32, bound0: i64, q: &[i16; STORE_DIM], hunt: &mut Hunt)
    requires
        idx.wf(),
        !is_clusters(idx.bytes()),
        is_searchable(idx.bytes()),
        old(hunt).wf(),
    ensures
        final(hunt).wf(),
        final(hunt)@ == dive(
            idx.forest(),
            q@,
            root as int,
            bound0 as int,
            STACK_ROOM as int,
            old(hunt)@,
        ),
{
    let ghost f = idx.forest();
    if root < 0 || root as u32 >= idx.node_count() {
        return ;
    }
    let ghost goal = dive(f, q@, root as int, bound0 as int, STACK_ROOM as int, hunt@);
    let mut stack: Vec<(i32, i64)> = Vec::new();
    let mut node: i32 = root;
    let mut bound: i64 = bound0;
    assert(rewind(f, q@, stack@, goal) == goal);
    loop
        invariant_except_break
            goal == rewind(
                f,
                q@,
                stack@,
                dive(f, q@, node as int, bound as int, STACK_ROOM - stack@.len(), hunt@),
            ),
        invariant
            idx.wf(),
            !is_clusters(idx.bytes()),
            is_searchable(idx.bytes()),
            f == idx.forest(),
            f.wf(),
            hunt.wf(),
            f.has_node(node as int),
            stack@.len() <= STACK_ROOM,
            stack_ok(f, stack@),
        ensures
            goal == hunt@,
        decreases f.weight(node as int) + stack_weight(f, stack@),
    {
        if bound < hunt.ceil() {
            let mut parked = false;
            if hunt.skippable(idx.kinds(node as usize)) {
                parked = hunt.stash(node, bound);
            }
            if !parked {
                let (left, right, start, len) = idx.read_node_meta(node as usize);
                assert(f.node_ok(node as int));
                if left < 0 {
                    sweep_leaf(idx, start, len, q, hunt);
                } else {
                    let lb: i64 = idx.lower_bound_node(left as usize, q);
                    let rb: i64 = idx.lower_bound_node(right as usize, q);
                    let (near, near_b, far, far_b) = if lb <= rb {
                        (left, lb, right, rb)
                    } else {
                        (right, rb, left, lb)
                    };
                    assert(near == f.near(q@, node as int) && far == f.far(q@, node as int));
                    if far_b < hunt.ceil() && stack.len() < STACK_ROOM {
                        let ghost before = stack@;
                        stack.push((far, far_b));
                        assert(stack@.drop_last() =~= before);
                    }
                    node = near;
                    bound = near_b;
                    continue;
                }
            }
        }
        if stack.len() == 0 {
            break;
        }
        let ghost before = stack@;
        let top = stack.pop().unwrap();
        assert(stack@ == before.drop_last());
        assert(top == before.last());
        node = top.0;
        bound = top.1;
    }
}

/// Explores the trees that were set aside.
fn flush(idx: &IndexReader, q: &[i16; STORE_DIM], hunt: &mut Hunt)
    requires
        idx.wf(),
        !is_clusters(idx.bytes()),
        is_searchable(idx.bytes()),
        old(hunt).wf(),
    ensures
        final(hunt).wf(),
        final(hunt)@ == flushed(idx.forest(), q@, old(hunt)@),
{
    let ghost f = idx.forest();
    let ghost h0 = hunt@;
    let mut list: Vec<(i32, i64)> = Vec::new();
    std::mem::swap(&mut list, &mut hunt.parked);
    hunt.pinned = false;
    assert(hunt@.parked =~= Seq::<(int, int)>::empty());
    assert(ints(list@) =~= h0.parked);
    if list.len() == 0 {
        return ;
    }
    hunt.draining = true;
    let ghost goal = drain(f, q@, h0.parked, 0, hunt@);
    let mut i: usize = 0;
    while i < list.len()
        invariant
            idx.wf(),
            !is_clusters(idx.bytes()),
            is_searchable(idx.bytes()),
            f == idx.forest(),
            hunt.wf(),
            i <= list@.len(),
            ints(list@) == h0.parked,
            goal == drain(f, q@, h0.parked, i as int, hunt@),
        decreases list@.len() - i,
    {
        let (node, bound) = list[i];
        assert(h0.parked[i as int] == (node as int, bound as int));
        if bound < hunt.ceil() {
            explore(idx, node, bound, q, hunt);
        }
        i += 1;
    }
    hunt.draining = false;
}

/// Counts the fraudulent ones among the five nearest neighbours.
pub fn fraud_count_pair(idx: &IndexReader, q: &[i16; STORE_DIM]) -> (count: u8)
    requires
        idx.wf(),
        !is_clusters(idx.bytes()),
        is_searchable(idx.bytes()),
    ensures
        hunt_result(idx.forest(), q@, count as int),
        count <= K,
{
    let ghost f = idx.forest();
    let mut hunt = Hunt::fresh();
    let key = partition_key(q);
    let home: i64 = idx.part_by_key(key);
    proof {
        lemma_home_range(f, key as int, f.parts.len() as int);
    }
    if home >= 0 {
        let (root, _len) = idx.read_partition_meta(home as usize);
        explore(idx, root, 0, q, &mut hunt);
        if hunt.unsettled() {
            flush(idx, q, &mut hunt);
        }
    }
    let ghost start = hunt@;
    assert(start == hunt_home(f, q@));
    let order = tour(idx, q, home, hunt.ceil());
    let ghost parts = parts_in(order@);
    let mut k: usize = 0;
    while k < order.len() && order[k].0 < hunt.ceil()
        invariant
            idx.wf(),
            !is_clusters(idx.bytes()),
            is_searchable(idx.bytes()),
            f == idx.forest(),
            hunt.wf(),
            k <= order@.len(),
            parts == parts_in(order@),
            f.is_tour(q@, start.best.ceiling() as int, parts),
            forall|j: int|
                0 <= j < order@.len() ==> (#[trigger] order@[j]).0 == f.part_gap(
                    q@,
                    order@[j].1 as int,
                ),
            hunt_tour(f, q@, parts, 0, start) == hunt_tour(f, q@, parts, k as int, hunt@),
        decreases order@.len() - k,
    {
        let p: usize = order[k].1;
        assert(parts[k as int] == p);
        let (root, _len) = idx.read_partition_meta(p);
        explore(idx, root, order[k].0, q, &mut hunt);
        if hunt.unsettled() {
            flush(idx, q, &mut hunt);
        }
        k += 1;
    }
    proof {
        assert(k < parts.len() ==> parts[k as int] == order@[k as int].1);
    }
    if hunt.unsettled() {
        flush(idx, q, &mut hunt);
    }
    hunt.verdict()
}

} // verus!
