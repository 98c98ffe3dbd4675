//! What a hunt holds after candidates were offered to it one after the other.

use vstd::prelude::*;
use crate::index::early::labels_small;
use crate::index::hunt::{seek_mask, Chase, Hunt};
use crate::index::nearest::lemma_insert_sorted;
use crate::index::shortlist::{lemma_label_sum_bound, lemma_label_sum_uniform, Best};
use crate::K;

verus! {

/// A hunt after candidates, given by distance and label, were offered in turn.
pub open spec fn chase_after(offers: Seq<(i64, u8)>) -> Chase
    decreases offers.len(),
{
    if offers.len() == 0 {
        Chase::fresh()
    } else {
        chase_after(offers.drop_last()).accepted(offers.last().0, offers.last().1)
    }
}

/// Whether offer `i` comes before offer `j`: it is closer, or as close and earlier.
pub open spec fn ahead_of(offers: Seq<(i64, u8)>, i: int, j: int) -> bool {
    offers[i].0 < offers[j].0 || (offers[i].0 == offers[j].0 && i < j)
}

/// Whether `sel` numbers the `K` closest offers, in order (all of them, where there are fewer). An
/// offer at the greatest distance there is does not count.
pub open spec fn are_smallest(offers: Seq<(i64, u8)>, sel: Seq<int>) -> bool {
    &&& sel.len() <= K
    &&& forall|k: int|
        0 <= k < sel.len() ==> 0 <= #[trigger] sel[k] < offers.len() && offers[sel[k]].0 < i64::MAX
    &&& forall|j: int, k: int|
        0 <= j < k < sel.len() ==> ahead_of(offers, #[trigger] sel[j], #[trigger] sel[k])
    &&& forall|i: int|
        0 <= i < offers.len() && offers[i].0 < i64::MAX && !#[trigger] sel.contains(i) ==> sel.len()
            == K && forall|k: int| 0 <= k < K ==> ahead_of(offers, #[trigger] sel[k], i)
}

/// Whether a short list holds the chosen offers, and nothing else.
pub open spec fn lists(offers: Seq<(i64, u8)>, sel: Seq<int>, b: Best) -> bool {
    &&& b.wf()
    &&& b.sorted()
    &&& forall|k: int|
        0 <= k < sel.len() ==> b.dists[k] == offers[#[trigger] sel[k]].0 && b.labels[k]
            == offers[sel[k]].1
    &&& forall|k: int|
        sel.len() <= k < K ==> #[trigger] b.dists[k] == i64::MAX && b.labels[k] == 0
}

/// One more offer that enters the list.
proof fn lemma_entered(offers: Seq<(i64, u8)>, d: i64, t: u8, sel: Seq<int>, b: Best) -> (r: Seq<
    int,
>)
    requires
        are_smallest(offers, sel),
        lists(offers, sel, b),
        d < b.ceiling(),
    ensures
        are_smallest(offers.push((d, t)), r),
        lists(offers.push((d, t)), r, b.insert(d, t)),
{
    let all = offers.push((d, t));
    let id = offers.len() as int;
    let p = b.place(d, K - 1);
    let nb = b.insert(d, t);
    lemma_insert_sorted(b, d, t);
    if sel.len() < p {
        assert(b.dists[p - 1] == i64::MAX);
    }
    let kept = if sel.len() < K {
        sel
    } else {
        sel.drop_last()
    };
    let r = kept.insert(p, id);
    assert(r[p] == id);
    assert forall|k: int| 0 <= k < r.len() implies #[trigger] r[k] == (if k < p {
        sel[k]
    } else if k == p {
        id
    } else {
        sel[k - 1]
    }) by {}
    assert forall|i: int| 0 <= i < offers.len() implies #[trigger] all[i] == offers[i] by {}
    assert forall|k: int| 0 <= k < sel.len() implies (k < p ==> ahead_of(
        all,
        #[trigger] sel[k],
        id,
    )) && (k >= p ==> ahead_of(all, id, sel[k])) by {
        assert(b.dists[k] == offers[sel[k]].0);
        if k < p {
            assert(b.dists[k] <= b.dists[p - 1]);
        } else {
            assert(b.dists[p] <= b.dists[k]);
        }
    }
    assert forall|k: int| 0 <= k < r.len() implies 0 <= #[trigger] r[k] < all.len() && all[r[k]].0
        < i64::MAX && nb.dists[k] == all[r[k]].0 && nb.labels[k] == all[r[k]].1 by {
        if k < p {
            assert(0 <= sel[k] < offers.len());
            assert(nb.dists[k] == b.dists[k] && nb.labels[k] == b.labels[k]);
        } else if k > p {
            assert(0 <= sel[k - 1] < offers.len());
            assert(nb.dists[k] == b.dists[k - 1] && nb.labels[k] == b.labels[k - 1]);
        }
    }
    assert forall|k: int| r.len() <= k < K implies #[trigger] nb.dists[k] == i64::MAX
        && nb.labels[k] == 0 by {
        assert(nb.dists[k] == b.dists[k - 1] && nb.labels[k] == b.labels[k - 1]);
        assert(b.dists[k - 1] == i64::MAX);
    }
    assert forall|j: int, k: int| 0 <= j < k < r.len() implies ahead_of(
        all,
        #[trigger] r[j],
        #[trigger] r[k],
    ) by {
        let oj = if j < p {
            j
        } else {
            j - 1
        };
        let ok = if k < p {
            k
        } else {
            k - 1
        };
        if j == p {
            assert(ahead_of(all, id, sel[ok]));
        } else if k == p {
            assert(ahead_of(all, sel[oj], id));
        } else {
            assert(ahead_of(offers, sel[oj], sel[ok]));
        }
    }
    assert forall|i: int|
        0 <= i < all.len() && all[i].0 < i64::MAX && !#[trigger] r.contains(i) implies r.len() == K
        && forall|k: int| 0 <= k < K ==> ahead_of(all, #[trigger] r[k], i) by {
        if i == id {
            assert(r[p] == i);
        }
        let last = sel[sel.len() - 1];
        if sel.contains(i) {
            let k = choose|k: int| 0 <= k < sel.len() && sel[k] == i;
            if k < p {
                assert(r[k] == i);
            } else if k + 1 < r.len() {
                assert(r[k + 1] == i);
            }
            assert(k == K - 1 && sel.len() == K);
        } else {
            assert(sel.len() == K);
            assert(ahead_of(offers, sel[K - 1], i));
        }
        assert(ahead_of(all, id, sel[K - 1]));
        assert forall|k: int| 0 <= k < K implies ahead_of(all, #[trigger] r[k], i) by {
            if k < p {
                if !sel.contains(i) {
                    assert(ahead_of(offers, sel[k], i));
                } else {
                    assert(ahead_of(offers, sel[k], sel[K - 1]));
                }
            } else if k > p {
                if !sel.contains(i) {
                    assert(ahead_of(offers, sel[k - 1], i));
                } else {
                    assert(ahead_of(offers, sel[k - 1], sel[K - 1]));
                }
            }
        }
    }
    r
}

/// One more offer that does not enter the list.
proof fn lemma_passed_over(offers: Seq<(i64, u8)>, d: i64, t: u8, sel: Seq<int>, b: Best)
    requires
        are_smallest(offers, sel),
        lists(offers, sel, b),
        d >= b.ceiling(),
    ensures
        are_smallest(offers.push((d, t)), sel),
        lists(offers.push((d, t)), sel, b),
{
    let all = offers.push((d, t));
    let id = offers.len() as int;
    assert forall|i: int| 0 <= i < offers.len() implies #[trigger] all[i] == offers[i] by {}
    assert forall|j: int, k: int| 0 <= j < k < sel.len() implies ahead_of(
        all,
        #[trigger] sel[j],
        #[trigger] sel[k],
    ) by {
        assert(ahead_of(offers, sel[j], sel[k]));
    }
    assert forall|i: int|
        0 <= i < all.len() && all[i].0 < i64::MAX && !#[trigger] sel.contains(i) implies sel.len()
        == K && forall|k: int| 0 <= k < K ==> ahead_of(all, #[trigger] sel[k], i) by {
        if i == id {
            assert(sel.len() == K);
            assert forall|k: int| 0 <= k < K implies ahead_of(all, #[trigger] sel[k], i) by {
                assert(b.dists[k] == offers[sel[k]].0);
                assert(b.dists[k] <= b.dists[K - 1]);
            }
        } else {
            assert forall|k: int| 0 <= k < K implies ahead_of(all, #[trigger] sel[k], i) by {
                assert(ahead_of(offers, sel[k], i));
            }
        }
    }
}

/// After candidates were offered in turn, a hunt lists the closest of them in order, of equally
/// close ones the earliest.
pub proof fn hunt_lists_the_smallest(offers: Seq<(i64, u8)>) -> (sel: Seq<int>)
    ensures
        are_smallest(offers, sel),
        lists(offers, sel, chase_after(offers).best),
    decreases offers.len(),
{
    if offers.len() == 0 {
        Seq::empty()
    } else {
        let before = offers.drop_last();
        let (d, t) = offers.last();
        let b = chase_after(before).best;
        let sel = hunt_lists_the_smallest(before);
        assert(before.push((d, t)) =~= offers);
        if d >= b.ceiling() {
            lemma_passed_over(before, d, t, sel, b);
            sel
        } else {
            lemma_entered(before, d, t, sel, b)
        }
    }
}

/// The running numbers of a hunt to which candidates were offered in turn agree with what it
/// lists: how many they are, and the sum of their labels, which is the verdict.
pub proof fn hunt_numbers_agree(h: Hunt, offers: Seq<(i64, u8)>, sel: Seq<int>)
    requires
        h.wf(),
        h@ == chase_after(offers),
        are_smallest(offers, sel),
        lists(offers, sel, h@.best),
    ensures
        h.seen == sel.len(),
        h.tally == h@.best.total(),
        0 <= h.tally <= K,
        forall|k: int|
            0 <= k < sel.len() ==> h.dist@[k] == offers[#[trigger] sel[k]].0 && h.tag@[k]
                == offers[sel[k]].1,
{
    let n = sel.len() as int;
    lemma_label_sum_bound(h.tag@);
    if h.seen < n {
        assert(h.dist@[h.seen as int] == i64::MAX);
        assert(offers[sel[h.seen as int]].0 < i64::MAX);
    }
    if n < h.seen {
        assert(h@.best.dists[n] == i64::MAX);
        assert(h.dist@[n] < i64::MAX);
    }
}

/// How many of some offers count: those below the greatest distance there is.
pub open spec fn offers_that_count(offers: Seq<(i64, u8)>) -> nat
    decreases offers.len(),
{
    if offers.len() == 0 {
        0
    } else {
        offers_that_count(offers.drop_last()) + (if offers.last().0 < i64::MAX {
            1nat
        } else {
            0nat
        })
    }
}

/// A hunt lists all offers that count, or `K` of them.
pub proof fn hunt_lists_so_many(offers: Seq<(i64, u8)>, sel: Seq<int>)
    requires
        are_smallest(offers, sel),
    ensures
        sel.len() == (if offers_that_count(offers) < K {
            offers_that_count(offers)
        } else {
            K as nat
        }),
{
    let n = offers.len() as int;
    let counting = Set::new(|i: int| 0 <= i < n && offers[i].0 < i64::MAX);
    lemma_counting(offers, n);
    assert(offers.take(n) =~= offers);
    assert(sel.no_duplicates()) by {
        assert forall|i: int, j: int| 0 <= i < sel.len() && 0 <= j < sel.len() && i
            != j implies sel[i] != sel[j] by {
            if i < j {
                assert(ahead_of(offers, sel[i], sel[j]));
            } else {
                assert(ahead_of(offers, sel[j], sel[i]));
            }
        }
    }
    sel.unique_seq_to_set();
    assert(sel.to_set().subset_of(counting)) by {
        assert forall|x: int| sel.to_set().contains(x) implies counting.contains(x) by {
            assert(sel.contains(x));
            let k = choose|k: int| 0 <= k < sel.len() && sel[k] == x;
            assert(offers[sel[k]].0 < i64::MAX);
        }
    }
    vstd::set_lib::lemma_len_subset(sel.to_set(), counting);
    if sel.len() < K {
        assert(counting.subset_of(sel.to_set())) by {
            assert forall|x: int| counting.contains(x) implies sel.to_set().contains(x) by {
                assert(sel.contains(x));
            }
        }
        vstd::set_lib::lemma_len_subset(counting, sel.to_set());
    }
}

/// The offers that count, as a set.
proof fn lemma_counting(offers: Seq<(i64, u8)>, n: int)
    requires
        0 <= n <= offers.len(),
    ensures
        Set::new(|i: int| 0 <= i < n && offers[i].0 < i64::MAX).finite(),
        Set::new(|i: int| 0 <= i < n && offers[i].0 < i64::MAX).len() == offers_that_count(
            offers.take(n),
        ),
    decreases n,
{
    let s = Set::new(|i: int| 0 <= i < n && offers[i].0 < i64::MAX);
    if n == 0 {
        assert(s =~= Set::empty());
    } else {
        lemma_counting(offers, n - 1);
        let before = Set::new(|i: int| 0 <= i < n - 1 && offers[i].0 < i64::MAX);
        assert(offers.take(n).drop_last() =~= offers.take(n - 1));
        if offers[n - 1].0 < i64::MAX {
            assert(s =~= before.insert(n - 1));
        } else {
            assert(s =~= before);
        }
    }
}

/// Whether a short list is full of candidates that all have one label.
pub open spec fn is_uniform(b: Best) -> bool {
    b.ceiling() < i64::MAX && ((forall|k: int| 0 <= k < K ==> #[trigger] b.labels[k] == 0) || (
    forall|k: int| 0 <= k < K ==> #[trigger] b.labels[k] == 1))
}

/// Whether offer number `n` was the first behind which the list was full of one label.
pub open spec fn first_uniform(offers: Seq<(i64, u8)>, n: int) -> bool {
    &&& 0 <= n <= offers.len()
    &&& is_uniform(chase_after(offers.take(n)).best)
    &&& forall|m: int| 0 <= m < n ==> !is_uniform(#[trigger] chase_after(offers.take(m)).best)
}

/// A full list has one label exactly where its labels add up to nothing or to all.
proof fn lemma_uniform(b: Best)
    requires
        labels_small(b),
        b.ceiling() < i64::MAX,
    ensures
        is_uniform(b) <==> (b.total() == 0 || b.total() == K),
{
    lemma_label_sum_uniform(b.labels);
    if b.total() == 0 {
        assert forall|k: int| 0 <= k < K implies #[trigger] b.labels[k] == 0 by {}
    }
    if b.total() == K {
        assert forall|k: int| 0 <= k < K implies #[trigger] b.labels[k] == 1 by {}
    }
}

/// The labels in the list are those offered.
proof fn lemma_labels_known(offers: Seq<(i64, u8)>)
    requires
        forall|i: int| 0 <= i < offers.len() ==> (#[trigger] offers[i]).1 <= 1,
    ensures
        labels_small(chase_after(offers).best),
{
    let sel = hunt_lists_the_smallest(offers);
    let b = chase_after(offers).best;
    assert forall|k: int| 0 <= k < K implies #[trigger] b.labels[k] <= 1 by {
        if k < sel.len() {
            assert(b.labels[k] == offers[sel[k]].1);
        } else {
            assert(b.dists[k] == i64::MAX);
        }
    }
}

/// A hunt to which candidates were offered in turn is pinned exactly where its list has been full of
/// one label; it stays so, and the anchor is the count of the first time.
pub proof fn hunt_is_pinned_by_one_label(offers: Seq<(i64, u8)>)
    requires
        forall|i: int| 0 <= i < offers.len() ==> (#[trigger] offers[i]).1 <= 1,
    ensures
        ({
            let h = chase_after(offers);
            &&& !h.draining
            &&& h.parked.len() == 0
            &&& h.pinned <==> exists|n: int|
                0 <= n <= offers.len() && is_uniform(#[trigger] chase_after(offers.take(n)).best)
            &&& h.pinned ==> exists|n: int| #[trigger]
                first_uniform(offers, n) && h.anchor == chase_after(offers.take(n)).best.total()
            &&& h.pinned ==> h.anchor == 0 || h.anchor == K
        }),
    decreases offers.len(),
{
    let len = offers.len() as int;
    let h = chase_after(offers);
    lemma_labels_known(offers);
    assert(offers.take(len) =~= offers);
    if len == 0 {
        assert forall|n: int| 0 <= n <= 0 implies !is_uniform(
            #[trigger] chase_after(offers.take(n)).best,
        ) by {
            assert(offers.take(n) =~= offers);
        }
    } else {
        let before = offers.drop_last();
        let g = chase_after(before);
        let (d, t) = offers.last();
        assert forall|i: int| 0 <= i < before.len() implies (#[trigger] before[i]).1 <= 1 by {
            assert(offers[i] == before[i]);
        }
        hunt_is_pinned_by_one_label(before);
        lemma_labels_known(before);
        assert forall|m: int| 0 <= m <= len - 1 implies #[trigger] offers.take(m)
            == before.take(m) by {
            assert(offers.take(m) =~= before.take(m));
        }
        assert(before.take(len - 1) =~= before);
        if h.best.ceiling() < i64::MAX {
            lemma_uniform(h.best);
        }
        if g.pinned {
            let n = choose|n: int| #[trigger]
                first_uniform(before, n) && g.anchor == chase_after(before.take(n)).best.total();
            lemma_first_kept(offers, n);
        } else {
            assert forall|m: int| 0 <= m < len implies !is_uniform(
                #[trigger] chase_after(offers.take(m)).best,
            ) by {
                assert(offers.take(m) == before.take(m));
                assert(!is_uniform(chase_after(before.take(m)).best));
            }
            if h.pinned {
                assert(is_uniform(chase_after(offers.take(len)).best));
                assert(first_uniform(offers, len));
            } else {
                assert(!is_uniform(h.best)) by {
                    if is_uniform(h.best) {
                        if d >= g.best.ceiling() {
                            assert(is_uniform(chase_after(offers.take(len - 1)).best));
                        }
                    }
                }
                assert forall|m: int| 0 <= m <= len implies !is_uniform(
                    #[trigger] chase_after(offers.take(m)).best,
                ) by {}
            }
        }
    }
}

/// What was first stays first when more is offered.
proof fn lemma_first_kept(offers: Seq<(i64, u8)>, n: int)
    requires
        offers.len() > 0,
        first_uniform(offers.drop_last(), n),
    ensures
        first_uniform(offers, n),
        chase_after(offers.take(n)) == chase_after(offers.drop_last().take(n)),
{
    let before = offers.drop_last();
    assert(offers.take(n) =~= before.take(n));
    assert forall|m: int| 0 <= m < n implies !is_uniform(
        #[trigger] chase_after(offers.take(m)).best,
    ) by {
        assert(offers.take(m) =~= before.take(m));
        assert(!is_uniform(chase_after(before.take(m)).best));
    }
}

/// A pinned hunt looks for the other label.
pub proof fn pinned_hunt_seeks_the_other_label(h: Hunt)
    requires
        h.wf(),
        h.pinned,
    ensures
        h.seek == seek_mask(h.anchor as int),
        h.anchor == 0 ==> h.seek == 2,
        h.anchor == K ==> h.seek == 1,
{
}

} // verus!
