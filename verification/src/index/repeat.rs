//! When searches can be repeated: what is left open does not show in the outcome.

use vstd::prelude::*;
use crate::index::build::grow::lemma_map_multiset;
use crate::index::distance::distance;
use crate::index::early::{early_home, early_result, early_tour};
use crate::index::hunt::{hunt_home, hunt_result, hunt_tour, settle};
use crate::index::model::{Forest, Slot};
use crate::index::nearest::{is_nearest_count, labels_of, nearest, picks};
use crate::index::shortlist::{label_sum, lemma_label_sum_insert};
use crate::index::stats::QueryStats;
use crate::K;

verus! {

/// Whether no two partitions behind the query's own are equally close to the query.
pub open spec fn distinct_gaps(f: Forest, q: Seq<i16>) -> bool {
    forall|p: int, r: int|
        0 <= p < f.parts.len() && 0 <= r < f.parts.len() && p != r && p != f.home_of(q) && r
            != f.home_of(q) ==> #[trigger] f.part_gap(q, p) != #[trigger] f.part_gap(q, r)
}

/// The first partitions of two tours are the same.
proof fn lemma_same_start(
    f: Forest,
    q: Seq<i16>,
    ceiling: int,
    a: Seq<int>,
    b: Seq<int>,
    k: int,
)
    requires
        distinct_gaps(f, q),
        f.is_tour(q, ceiling, a),
        f.is_tour(q, ceiling, b),
        0 <= k <= a.len(),
    ensures
        k <= b.len(),
        forall|j: int| 0 <= j < k ==> a[j] == b[j],
    decreases k,
{
    if k > 0 {
        lemma_same_start(f, q, ceiling, a, b, k - 1);
        let x = a[k - 1];
        assert(b.contains(x));
        let i = choose|i: int| 0 <= i < b.len() && b[i] == x;
        if i < k - 1 {
            assert(a[i] == a[k - 1]);
        }
        let y = b[k - 1];
        assert(a.contains(y));
        let j = choose|j: int| 0 <= j < a.len() && a[j] == y;
        if j < k - 1 {
            assert(b[j] == b[k - 1]);
        }
        assert(f.part_gap(q, b[k - 1]) <= f.part_gap(q, b[i]));
        assert(f.part_gap(q, a[k - 1]) <= f.part_gap(q, a[j]));
        assert(f.part_gap(q, x) == f.part_gap(q, y));
    }
}

/// There is one way only to tour partitions that are not equally close.
pub proof fn tours_are_unique(f: Forest, q: Seq<i16>, ceiling: int, a: Seq<int>, b: Seq<int>)
    requires
        distinct_gaps(f, q),
        f.is_tour(q, ceiling, a),
        f.is_tour(q, ceiling, b),
    ensures
        a == b,
{
    lemma_same_start(f, q, ceiling, a, b, a.len() as int);
    lemma_same_start(f, q, ceiling, b, a, b.len() as int);
    assert(a =~= b);
}

/// An early search that is repeated gives the same count and takes the same work, unless two
/// partitions are equally close.
pub proof fn early_search_is_repeatable(
    f: Forest,
    q: Seq<i16>,
    stats: QueryStats,
    count1: int,
    after1: QueryStats,
    count2: int,
    after2: QueryStats,
)
    requires
        distinct_gaps(f, q),
        early_result(f, q, stats, count1, after1),
        early_result(f, q, stats, count2, after2),
    ensures
        count1 == count2,
        after1 == after2,
{
    let home = early_home(f, q, stats);
    if !home.done {
        let ceiling = home.best.ceiling() as int;
        let a = choose|order: Seq<int>| #[trigger]
            f.is_tour(q, ceiling, order) && count1 == early_tour(f, q, order, 0, home).best.total()
                && after1 == early_tour(f, q, order, 0, home).stats;
        let b = choose|order: Seq<int>| #[trigger]
            f.is_tour(q, ceiling, order) && count2 == early_tour(f, q, order, 0, home).best.total()
                && after2 == early_tour(f, q, order, 0, home).stats;
        tours_are_unique(f, q, ceiling, a, b);
    }
}

/// An exact search that is repeated gives the same count, unless two partitions are equally close.
pub proof fn exact_search_is_repeatable(f: Forest, q: Seq<i16>, count1: int, count2: int)
    requires
        distinct_gaps(f, q),
        hunt_result(f, q, count1),
        hunt_result(f, q, count2),
    ensures
        count1 == count2,
{
    let ceiling = hunt_home(f, q).best.ceiling() as int;
    let home = hunt_home(f, q);
    let a = choose|order: Seq<int>| #[trigger]
        f.is_tour(q, ceiling, order) && count1 == settle(
            f,
            q,
            hunt_tour(f, q, order, 0, home),
        ).best.total();
    let b = choose|order: Seq<int>| #[trigger]
        f.is_tour(q, ceiling, order) && count2 == settle(
            f,
            q,
            hunt_tour(f, q, order, 0, home),
        ).best.total();
    tours_are_unique(f, q, ceiling, a, b);
}

/// Whether no two slots are equally far from the query.
pub open spec fn distinct_distances(pts: Seq<Slot>, q: Seq<i16>) -> bool {
    forall|i: int, j: int|
        0 <= i < pts.len() && 0 <= j < pts.len() && i != j ==> distance(
            (#[trigger] pts[i]).vec,
            q,
        ) != distance((#[trigger] pts[j]).vec, q)
}

/// A slot that one choice of the nearest has and another has not is as far as one the other way
/// round.
proof fn lemma_same_choice(pts: Seq<Slot>, q: Seq<i16>, a: Seq<int>, b: Seq<int>, x: int)
    requires
        distinct_distances(pts, q),
        nearest(pts, q, a),
        nearest(pts, q, b),
        a.contains(x),
    ensures
        b.contains(x),
{
    if !b.contains(x) {
        let k = choose|k: int| 0 <= k < a.len() && a[k] == x;
        assert(0 <= a[k] < pts.len());
        assert(b.len() == K);
        if exists|y: int| b.contains(y) && !a.contains(y) {
            let y = choose|y: int| b.contains(y) && !a.contains(y);
            let l = choose|l: int| 0 <= l < b.len() && b[l] == y;
            assert(0 <= b[l] < pts.len());
            assert(distance(pts[a[k]].vec, q) <= distance(pts[y].vec, q));
            assert(distance(pts[b[l]].vec, q) <= distance(pts[x].vec, q));
        } else {
            assert(b.to_set().subset_of(a.to_set().remove(x))) by {
                assert forall|y: int| b.to_set().contains(y) implies a.to_set().remove(x).contains(
                    y,
                ) by {
                    assert(b.contains(y));
                    assert(a.contains(y));
                }
            }
            a.unique_seq_to_set();
            b.unique_seq_to_set();
            assert(a.to_set().contains(x));
            vstd::set_lib::lemma_len_subset(b.to_set(), a.to_set().remove(x));
        }
    }
}

/// The order of labels does not matter to their sum.
proof fn lemma_label_sum_reordered(a: Seq<u8>, b: Seq<u8>)
    requires
        a.to_multiset() == b.to_multiset(),
    ensures
        label_sum(a) == label_sum(b),
    decreases a.len(),
{
    a.to_multiset_ensures();
    b.to_multiset_ensures();
    assert(a.len() == a.to_multiset().len());
    assert(b.len() == b.to_multiset().len());
    if a.len() > 0 {
        let x = a.last();
        assert(a.contains(x));
        assert(b.to_multiset().count(x) > 0);
        assert(b.contains(x));
        let i = choose|i: int| 0 <= i < b.len() && b[i] == x;
        let ra = a.remove(a.len() - 1);
        let rb = b.remove(i);
        assert(ra.to_multiset() =~= rb.to_multiset());
        lemma_label_sum_reordered(ra, rb);
        assert(ra =~= a.drop_last());
        assert(rb.insert(i, x) =~= b);
        lemma_label_sum_insert(rb, i, x);
    }
}

/// Two lists of different numbers that have the same numbers are reorderings of each other.
proof fn lemma_same_numbers(a: Seq<int>, b: Seq<int>)
    requires
        a.no_duplicates(),
        b.no_duplicates(),
        forall|x: int| a.contains(x) <==> b.contains(x),
    ensures
        a.to_multiset() == b.to_multiset(),
{
    a.to_multiset_ensures();
    b.to_multiset_ensures();
    a.lemma_multiset_has_no_duplicates();
    b.lemma_multiset_has_no_duplicates();
    assert forall|x: int| a.to_multiset().count(x) == b.to_multiset().count(x) by {
        assert(a.contains(x) <==> a.to_multiset().count(x) > 0);
        assert(b.contains(x) <==> b.to_multiset().count(x) > 0);
        if a.contains(x) {
            assert(a.to_multiset().contains(x));
            assert(b.to_multiset().contains(x));
        }
    }
    assert(a.to_multiset() =~= b.to_multiset());
}

/// The five nearest of slots that are not equally far have one count only.
pub proof fn nearest_count_is_unique(pts: Seq<Slot>, q: Seq<i16>, count1: int, count2: int)
    requires
        distinct_distances(pts, q),
        is_nearest_count(pts, q, count1),
        is_nearest_count(pts, q, count2),
    ensures
        count1 == count2,
{
    let a = choose|sel: Seq<int>| #[trigger]
        nearest(pts, q, sel) && count1 == label_sum(labels_of(pts, sel));
    let b = choose|sel: Seq<int>| #[trigger]
        nearest(pts, q, sel) && count2 == label_sum(labels_of(pts, sel));
    assert forall|x: int| a.contains(x) <==> b.contains(x) by {
        if a.contains(x) {
            lemma_same_choice(pts, q, a, b, x);
        }
        if b.contains(x) {
            lemma_same_choice(pts, q, b, a, x);
        }
    }
    lemma_same_numbers(a, b);
    let g = |i: int| pts[i].label;
    lemma_map_multiset(a, b, g);
    lemma_label_sum_reordered(labels_of(pts, a), labels_of(pts, b));
}

/// Whether `five` numbers `K` slots that are closer to the query than all others.
pub open spec fn are_closest(pts: Seq<Slot>, q: Seq<i16>, five: Seq<int>) -> bool {
    &&& picks(pts, five)
    &&& five.len() == K
    &&& forall|k: int, i: int|
        0 <= k < K && 0 <= i < pts.len() && !five.contains(i) ==> distance(
            pts[#[trigger] five[k]].vec,
            q,
        ) < distance((#[trigger] pts[i]).vec, q)
}

/// Different numbers that all stand in a list of different numbers are no more than it has.
proof fn lemma_no_more(a: Seq<int>, b: Seq<int>)
    requires
        a.no_duplicates(),
        b.no_duplicates(),
        forall|x: int| a.contains(x) ==> b.contains(x),
    ensures
        a.len() <= b.len(),
{
    a.unique_seq_to_set();
    b.unique_seq_to_set();
    assert(a.to_set().subset_of(b.to_set())) by {
        assert forall|x: int| a.to_set().contains(x) implies b.to_set().contains(x) by {
            assert(a.contains(x));
        }
    }
    vstd::set_lib::lemma_len_subset(a.to_set(), b.to_set());
}

/// Each of the closest is among the nearest.
proof fn lemma_closest_chosen(pts: Seq<Slot>, q: Seq<i16>, sel: Seq<int>, five: Seq<int>, x: int)
    requires
        nearest(pts, q, sel),
        are_closest(pts, q, five),
        five.contains(x),
    ensures
        sel.contains(x),
{
    if !sel.contains(x) {
        let k = choose|k: int| 0 <= k < five.len() && five[k] == x;
        assert(0 <= five[k] < pts.len());
        assert(sel.len() == K);
        if exists|y: int| sel.contains(y) && !five.contains(y) {
            let y = choose|y: int| sel.contains(y) && !five.contains(y);
            let l = choose|l: int| 0 <= l < sel.len() && sel[l] == y;
            assert(0 <= sel[l] < pts.len());
            assert(distance(pts[five[k]].vec, q) < distance(pts[y].vec, q));
            assert(distance(pts[sel[l]].vec, q) <= distance(pts[x].vec, q));
        } else {
            let more = sel.push(x);
            assert forall|i: int, j: int| 0 <= i < more.len() && 0 <= j < more.len() && i
                != j implies more[i] != more[j] by {
                if i < sel.len() {
                    assert(sel.contains(sel[i]));
                }
                if j < sel.len() {
                    assert(sel.contains(sel[j]));
                }
            }
            assert forall|y: int| more.contains(y) implies five.contains(y) by {
                let i = choose|i: int| 0 <= i < more.len() && more[i] == y;
                if i < sel.len() {
                    assert(sel[i] == y);
                    assert(sel.contains(y));
                }
            }
            lemma_no_more(more, five);
        }
    }
}

/// Where five slots are closer than all others, the nearest are these five.
pub proof fn closest_are_counted(pts: Seq<Slot>, q: Seq<i16>, count: int, five: Seq<int>)
    requires
        is_nearest_count(pts, q, count),
        are_closest(pts, q, five),
    ensures
        count == label_sum(labels_of(pts, five)),
{
    let sel = choose|sel: Seq<int>| #[trigger]
        nearest(pts, q, sel) && count == label_sum(labels_of(pts, sel));
    assert forall|x: int| five.contains(x) implies sel.contains(x) by {
        lemma_closest_chosen(pts, q, sel, five, x);
    }
    assert forall|x: int| sel.contains(x) implies five.contains(x) by {
        if !five.contains(x) {
            let more = five.push(x);
            assert forall|i: int, j: int| 0 <= i < more.len() && 0 <= j < more.len() && i
                != j implies more[i] != more[j] by {
                if i < five.len() {
                    assert(five.contains(five[i]));
                }
                if j < five.len() {
                    assert(five.contains(five[j]));
                }
            }
            assert forall|y: int| more.contains(y) implies sel.contains(y) by {
                let i = choose|i: int| 0 <= i < more.len() && more[i] == y;
                if i < five.len() {
                    assert(five[i] == y);
                    assert(five.contains(y));
                }
            }
            lemma_no_more(more, sel);
        }
    }
    lemma_same_numbers(sel, five);
    let g = |i: int| pts[i].label;
    lemma_map_multiset(sel, five, g);
    lemma_label_sum_reordered(labels_of(pts, sel), labels_of(pts, five));
}

} // verus!
