//! Distances, gaps and partition keys.

use vstd::prelude::*;
use crate::index::distance::{dist_upto, distance, gap, gap_upto, key_of, lemma_dist_bound};
use crate::index::shortlist::label_sum;

verus! {

proof fn lemma_untouched(a: Seq<i16>, b: Seq<i16>, c: Seq<i16>, n: int)
    requires
        0 <= n <= 14,
        forall|d: int| 0 <= d < n ==> b[d] == c[d],
    ensures
        dist_upto(a, b, n) == dist_upto(a, c, n),
    decreases n,
{
    if n > 0 {
        lemma_untouched(a, b, c, n - 1);
    }
}

proof fn lemma_replaced(a: Seq<i16>, b: Seq<i16>, d: int, n: int)
    requires
        0 <= d < n <= 14,
        14 <= b.len(),
    ensures
        dist_upto(a, b, n) == dist_upto(a, b.update(d, a[d]), n) + (a[d] - b[d]) * (a[d] - b[d]),
    decreases n,
{
    let c = b.update(d, a[d]);
    if d == n - 1 {
        lemma_untouched(a, b, c, n - 1);
        assert(dist_upto(a, c, n) == dist_upto(a, c, n - 1) + (a[d] - c[d]) * (a[d] - c[d]));
        assert(a[d] - c[d] == 0);
        assert((a[d] - c[d]) * (a[d] - c[d]) == 0) by (nonlinear_arith)
            requires
                a[d] - c[d] == 0,
        ;
    } else {
        lemma_replaced(a, b, d, n - 1);
        assert(c[n - 1] == b[n - 1]);
    }
}

/// A coordinate adds the square of its difference to a distance, whatever the signs.
pub proof fn each_coordinate_adds_its_square(a: Seq<i16>, b: Seq<i16>, d: int)
    requires
        0 <= d < 14,
        14 <= b.len(),
    ensures
        distance(a, b) == distance(a, b.update(d, a[d])) + (a[d] - b[d]) * (a[d] - b[d]),
{
    lemma_replaced(a, b, d, 14);
}

proof fn lemma_same(a: Seq<i16>, b: Seq<i16>, n: int)
    requires
        0 <= n <= 14,
        forall|d: int| 0 <= d < 14 ==> a[d] == b[d],
    ensures
        dist_upto(a, b, n) == 0,
    decreases n,
{
    if n > 0 {
        lemma_same(a, b, n - 1);
        let x = a[n - 1] - b[n - 1];
        assert(x * x == 0) by (nonlinear_arith)
            requires
                x == 0,
        ;
    }
}

/// Vectors that agree in their fourteen features are at no distance.
pub proof fn equal_vectors_are_at_no_distance(a: Seq<i16>, b: Seq<i16>)
    requires
        forall|d: int| 0 <= d < 14 ==> a[d] == b[d],
    ensures
        distance(a, b) == 0,
{
    lemma_same(a, b, 14);
}

proof fn lemma_swapped(a: Seq<i16>, b: Seq<i16>, n: int)
    requires
        0 <= n <= 14,
    ensures
        dist_upto(a, b, n) == dist_upto(b, a, n),
    decreases n,
{
    if n > 0 {
        lemma_swapped(a, b, n - 1);
        let x = a[n - 1] - b[n - 1];
        let y = b[n - 1] - a[n - 1];
        assert(x * x == y * y) by (nonlinear_arith)
            requires
                x == -y,
        ;
    }
}

/// A distance is the same both ways, is never negative, and looks at fourteen features only.
pub proof fn distances_are_symmetric(a: Seq<i16>, b: Seq<i16>, c: Seq<i16>)
    requires
        forall|d: int| 0 <= d < 14 ==> b[d] == c[d],
    ensures
        distance(a, b) == distance(b, a),
        distance(a, b) == distance(a, c),
        0 <= distance(a, b),
{
    lemma_swapped(a, b, 14);
    lemma_untouched(a, b, c, 14);
    lemma_dist_bound(a, b, 14);
}

/// The place in a box that is closest to a vector.
pub open spec fn closest_place(q: Seq<i16>, lo: Seq<i16>, hi: Seq<i16>) -> Seq<i16> {
    Seq::new(
        14,
        |d: int|
            if q[d] < lo[d] {
                lo[d]
            } else if q[d] > hi[d] {
                hi[d]
            } else {
                q[d]
            },
    )
}

proof fn lemma_attained(q: Seq<i16>, lo: Seq<i16>, hi: Seq<i16>, n: int)
    requires
        0 <= n <= 14,
        forall|d: int| 0 <= d < 14 ==> #[trigger] lo[d] <= hi[d],
    ensures
        dist_upto(closest_place(q, lo, hi), q, n) == gap_upto(q, lo, hi, n),
    decreases n,
{
    if n > 0 {
        lemma_attained(q, lo, hi, n - 1);
        let v = closest_place(q, lo, hi)[n - 1];
        let x = v - q[n - 1];
        let y = q[n - 1] - v;
        assert(x * x == y * y) by (nonlinear_arith)
            requires
                x == -y,
        ;
        if v == q[n - 1] {
            assert(x * x == 0) by (nonlinear_arith)
                requires
                    x == 0,
            ;
        }
    }
}

/// The gap to a box is the distance to the closest place in it: one place is so far, and none is
/// closer.
pub proof fn gap_is_the_least_distance(q: Seq<i16>, lo: Seq<i16>, hi: Seq<i16>)
    requires
        forall|d: int| 0 <= d < 14 ==> #[trigger] lo[d] <= hi[d],
    ensures
        exists|v: Seq<i16>| #[trigger]
            distance(v, q) == gap(q, lo, hi) && forall|d: int|
                0 <= d < 14 ==> lo[d] <= #[trigger] v[d] <= hi[d],
        forall|v: Seq<i16>|
            (forall|d: int| 0 <= d < 14 ==> lo[d] <= #[trigger] v[d] <= hi[d]) ==> gap(q, lo, hi)
                <= #[trigger] distance(v, q),
{
    let v = closest_place(q, lo, hi);
    lemma_attained(q, lo, hi, 14);
    assert(distance(v, q) == gap(q, lo, hi));
    assert forall|d: int| 0 <= d < 14 implies lo[d] <= #[trigger] v[d] <= hi[d] by {
        assert(lo[d] <= hi[d]);
    }
    assert forall|v: Seq<i16>|
        (forall|d: int| 0 <= d < 14 ==> lo[d] <= #[trigger] v[d] <= hi[d]) implies gap(q, lo, hi)
        <= #[trigger] distance(v, q) by {
        crate::index::distance::gap_is_lower_bound(v, q, lo, hi);
    }
}

/// The eight bits of a partition key: whether there is a last transaction, is the purchase online,
/// the card present, the merchant unknown, two bits for the merchant risk, is the amount high for the
/// customer, and are there many transactions.
pub proof fn keys_pack_eight_bits(v: Seq<i16>)
    ensures
        0 <= key_of(v) < 256,
        key_of(v) % 2 == 1 <==> v[5] >= 0,
        (key_of(v) / 2) % 2 == 1 <==> v[9] > 0,
        (key_of(v) / 4) % 2 == 1 <==> v[10] > 0,
        (key_of(v) / 8) % 2 == 1 <==> v[11] > 0,
        (key_of(v) / 16) % 4 == 0 <==> v[12] < 2048,
        (key_of(v) / 16) % 4 == 1 <==> 2048 <= v[12] < 4096,
        (key_of(v) / 16) % 4 == 2 <==> 4096 <= v[12] < 6144,
        (key_of(v) / 16) % 4 == 3 <==> 6144 <= v[12],
        (key_of(v) / 64) % 2 == 1 <==> v[2] > 4096,
        (key_of(v) / 128) % 2 == 1 <==> v[8] > 2048,
{
}

/// The labels of slots, each legitimate or fraudulent, add up to the number of fraudulent ones.
pub proof fn labels_add_up_to_frauds(labels: Seq<u8>)
    requires
        forall|i: int| 0 <= i < labels.len() ==> #[trigger] labels[i] == 0 || labels[i] == 1,
    ensures
        label_sum(labels) == labels.filter(|l: u8| l == 1).len(),
    decreases labels.len(),
{
    reveal(Seq::filter);
    if labels.len() > 0 {
        let before = labels.drop_last();
        assert forall|i: int| 0 <= i < before.len() implies #[trigger] before[i] == 0 || before[i]
            == 1 by {
            assert(before[i] == labels[i]);
        }
        labels_add_up_to_frauds(before);
        assert(labels[labels.len() - 1] == labels.last());
    }
}

} // verus!
