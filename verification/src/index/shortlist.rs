//! The short list: the `K` closest candidates seen so far, closest first, with their labels.

use vstd::prelude::*;
use crate::index::distance::EARLY_DISTANCE_LIMIT;
use crate::K;

verus! {

/// The short list as a value. An entry that no candidate has taken holds `i64::MAX` and label `0`.
#[verifier::ext_equal]
pub struct Best {
    pub dists: Seq<i64>,
    pub labels: Seq<u8>,
}

impl Best {
    /// The empty short list.
    pub open spec fn empty() -> Best {
        Best {
            dists: Seq::new(K as nat, |i: int| i64::MAX),
            labels: Seq::new(K as nat, |i: int| 0u8),
        }
    }

    /// A candidate enters only below this distance.
    pub open spec fn ceiling(self) -> i64 {
        self.dists[K - 1]
    }

    /// Where a candidate at `dist` goes when the entries from `pos` on give way to it.
    pub open spec fn place(self, dist: i64, pos: int) -> int
        decreases pos,
    {
        if pos > 0 && dist < self.dists[pos - 1] {
            self.place(dist, pos - 1)
        } else {
            pos
        }
    }

    /// The list after a candidate was offered: it goes behind the entries that are at least as
    /// close, and the last entry drops out.
    pub open spec fn insert(self, dist: i64, label: u8) -> Best {
        if dist >= self.ceiling() {
            self
        } else {
            let p = self.place(dist, K - 1);
            Best {
                dists: self.dists.drop_last().insert(p, dist),
                labels: self.labels.drop_last().insert(p, label),
            }
        }
    }

    /// Whether the list is full of candidates close enough to stop searching.
    pub open spec fn close_enough(self) -> bool {
        self.ceiling() <= EARLY_DISTANCE_LIMIT
    }

    /// The sum of the labels.
    pub open spec fn total(self) -> int {
        label_sum(self.labels)
    }

    pub open spec fn wf(self) -> bool {
        self.dists.len() == K && self.labels.len() == K
    }

    /// Whether the entries are ordered by distance.
    pub open spec fn sorted(self) -> bool {
        forall|i: int, j: int| 0 <= i <= j < K ==> self.dists[i] <= self.dists[j]
    }
}

/// The sum of a sequence of labels.
pub open spec fn label_sum(labels: Seq<u8>) -> int
    decreases labels.len(),
{
    if labels.len() == 0 {
        0
    } else {
        label_sum(labels.drop_last()) + labels.last()
    }
}

pub open spec fn best_of(dists: [i64; K], labels: [u8; K]) -> Best {
    Best { dists: dists@, labels: labels@ }
}

pub proof fn lemma_place_range(b: Best, dist: i64, pos: int)
    requires
        0 <= pos,
    ensures
        0 <= b.place(dist, pos) <= pos,
    decreases pos,
{
    if pos > 0 && dist < b.dists[pos - 1] {
        lemma_place_range(b, dist, pos - 1);
    }
}

pub proof fn lemma_insert_wf(b: Best, dist: i64, label: u8)
    requires
        b.wf(),
    ensures
        b.insert(dist, label).wf(),
        b.insert(dist, label).ceiling() <= b.ceiling() || !b.sorted(),
{
    lemma_place_range(b, dist, K - 1);
}

/// Offers a candidate to the short list.
pub fn insert_best(dist: i64, label: u8, dists: &mut [i64; K], labels: &mut [u8; K])
    ensures
        best_of(*final(dists), *final(labels)) == best_of(*old(dists), *old(labels)).insert(
            dist,
            label,
        ),
{
    let ghost b = best_of(*dists, *labels);
    if dist >= dists[K - 1] {
        return ;
    }
    let mut pos: usize = K - 1;
    while pos > 0 && dist < dists[pos - 1]
        invariant
            0 <= pos <= K - 1,
            b.wf(),
            dists@.len() == K,
            labels@.len() == K,
            b.place(dist, K - 1) == b.place(dist, pos as int),
            forall|j: int| 0 <= j < pos ==> dists@[j] == b.dists[j] && labels@[j] == b.labels[j],
            forall|j: int|
                pos < j < K ==> dists@[j] == b.dists[j - 1] && labels@[j] == b.labels[j - 1],
        decreases pos,
    {
        dists[pos] = dists[pos - 1];
        labels[pos] = labels[pos - 1];
        pos -= 1;
    }
    dists[pos] = dist;
    labels[pos] = label;
    assert(dists@ =~= b.dists.drop_last().insert(pos as int, dist));
    assert(labels@ =~= b.labels.drop_last().insert(pos as int, label));
}

pub proof fn lemma_label_sum_bound(labels: Seq<u8>)
    requires
        forall|i: int| 0 <= i < labels.len() ==> labels[i] <= 1,
    ensures
        0 <= label_sum(labels) <= labels.len(),
    decreases labels.len(),
{
    if labels.len() > 0 {
        lemma_label_sum_bound(labels.drop_last());
    }
}

pub proof fn lemma_label_sum_nonneg(labels: Seq<u8>)
    ensures
        0 <= label_sum(labels),
    decreases labels.len(),
{
    if labels.len() > 0 {
        lemma_label_sum_nonneg(labels.drop_last());
    }
}

pub proof fn lemma_label_sum_take(labels: Seq<u8>, i: int)
    requires
        0 <= i <= labels.len(),
    ensures
        0 <= label_sum(labels.take(i)) <= label_sum(labels),
    decreases labels.len(),
{
    if i == labels.len() {
        assert(labels.take(i) =~= labels);
        lemma_label_sum_nonneg(labels);
    } else {
        assert(labels.drop_last().take(i) =~= labels.take(i));
        lemma_label_sum_take(labels.drop_last(), i);
    }
}

/// A label that is put in adds to the sum.
pub proof fn lemma_label_sum_insert(labels: Seq<u8>, p: int, label: u8)
    requires
        0 <= p <= labels.len(),
    ensures
        label_sum(labels.insert(p, label)) == label_sum(labels) + label,
    decreases labels.len(),
{
    let after = labels.insert(p, label);
    if p == labels.len() {
        assert(after.drop_last() =~= labels);
    } else {
        assert(after.drop_last() =~= labels.drop_last().insert(p, label));
        lemma_label_sum_insert(labels.drop_last(), p, label);
    }
}

/// A candidate that enters brings its label, and the last label drops out.
pub proof fn lemma_insert_total(b: Best, dist: i64, label: u8)
    requires
        b.wf(),
        dist < b.ceiling(),
    ensures
        b.insert(dist, label).total() == b.total() + label - b.labels[K - 1],
{
    lemma_place_range(b, dist, K - 1);
    lemma_label_sum_insert(b.labels.drop_last(), b.place(dist, K - 1), label);
}

/// Labels that are all the same add up to nothing, or to as many as there are.
pub proof fn lemma_label_sum_uniform(labels: Seq<u8>)
    requires
        forall|i: int| 0 <= i < labels.len() ==> labels[i] <= 1,
    ensures
        label_sum(labels) == 0 <==> (forall|i: int| 0 <= i < labels.len() ==> labels[i] == 0),
        label_sum(labels) == labels.len() <==> (forall|i: int|
            0 <= i < labels.len() ==> labels[i] == 1),
    decreases labels.len(),
{
    if labels.len() > 0 {
        let init = labels.drop_last();
        lemma_label_sum_uniform(init);
        lemma_label_sum_bound(init);
        assert(forall|i: int| 0 <= i < init.len() ==> labels[i] == init[i]);
        assert(labels[labels.len() - 1] == labels.last());
        if label_sum(labels) == 0 {
            assert forall|i: int| 0 <= i < labels.len() implies labels[i] == 0 by {
                if i < init.len() {
                    assert(init[i] == 0);
                }
            }
        }
        if label_sum(labels) == labels.len() {
            assert forall|i: int| 0 <= i < labels.len() implies labels[i] == 1 by {
                if i < init.len() {
                    assert(init[i] == 1);
                }
            }
        }
    }
}

/// The sum of the labels of a short list.
pub fn sum_labels(labels: &[u8; K]) -> (n: u8)
    requires
        label_sum(labels@) <= u8::MAX,
    ensures
        n == label_sum(labels@),
{
    let mut n: u8 = 0;
    let mut i: usize = 0;
    while i < K
        invariant
            i <= K,
            labels@.len() == K,
            n == label_sum(labels@.take(i as int)),
            label_sum(labels@) <= u8::MAX,
        decreases K - i,
    {
        proof {
            lemma_label_sum_take(labels@, i + 1);
            assert(labels@.take(i + 1).drop_last() =~= labels@.take(i as int));
        }
        n += labels[i];
        i += 1;
    }
    assert(labels@.take(K as int) =~= labels@);
    n
}

/// Whether the short list is full of candidates close enough to stop searching.
pub fn early_done(best: &[i64; K]) -> (r: bool)
    ensures
        r == (best@[K - 1] <= EARLY_DISTANCE_LIMIT),
{
    best[K - 1] <= EARLY_DISTANCE_LIMIT
}

} // verus!
