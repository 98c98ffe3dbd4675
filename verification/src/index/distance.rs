//! Partition keys, distances and box bounds.

use vstd::prelude::*;
use crate::{DIM, STORE_DIM};

verus! {

/// Squared distance below which a full short list ends an approximate search: the square of
/// fourteen hundredths of the scale.
pub const EARLY_DISTANCE_LIMIT: i64 = 1_960_000;

/// The weight of a bit that is set when `on`.
pub open spec fn bit(on: bool, weight: int) -> int {
    if on {
        weight
    } else {
        0
    }
}

/// Which of the four merchant risk bands a quantized risk falls into.
pub open spec fn risk_band(risk: int) -> int {
    if risk <= 2047 {
        0
    } else if risk <= 4095 {
        1
    } else if risk <= 6143 {
        2
    } else {
        3
    }
}

/// The partition of a vector: six yes/no features and the risk band, packed into eight bits.
pub open spec fn key_of(v: Seq<i16>) -> int {
    bit(v[5] >= 0, 1) + bit(v[9] > 0, 2) + bit(v[10] > 0, 4) + bit(v[11] > 0, 8) + 16 * risk_band(
        v[12] as int,
    ) + bit(v[2] > 4096, 64) + bit(v[8] > 2048, 128)
}

/// The partition that a vector belongs to.
pub fn partition_key(v: &[i16; STORE_DIM]) -> (key: u32)
    ensures
        key == key_of(v@),
        key < 256,
{
    let mut key: u32 = 0;
    if v[5] >= 0 {
        key += 1;
    }
    if v[9] > 0 {
        key += 2;
    }
    if v[10] > 0 {
        key += 4;
    }
    if v[11] > 0 {
        key += 8;
    }
    let risk = v[12];
    if risk <= 2047 {
    } else if risk <= 4095 {
        key += 16;
    } else if risk <= 6143 {
        key += 32;
    } else {
        key += 48;
    }
    if v[2] > 4096 {
        key += 64;
    }
    if v[8] > 2048 {
        key += 128;
    }
    key
}

/// Squared difference of two coordinates.
pub open spec fn square(x: int) -> int {
    x * x
}

/// Squared distance over the first `n` coordinates.
pub open spec fn dist_upto(a: Seq<i16>, b: Seq<i16>, n: int) -> int
    decreases n,
{
    if n <= 0 {
        0
    } else {
        dist_upto(a, b, n - 1) + square(a[n - 1] - b[n - 1])
    }
}

/// Squared distance of two vectors.
pub open spec fn distance(a: Seq<i16>, b: Seq<i16>) -> int {
    dist_upto(a, b, DIM as int)
}

/// Squared gap between a coordinate and an interval.
pub open spec fn gap_dim(q: int, lo: int, hi: int) -> int {
    if q < lo {
        square(lo - q)
    } else if q > hi {
        square(q - hi)
    } else {
        0
    }
}

/// Squared gap between a vector and a box over the first `n` coordinates.
pub open spec fn gap_upto(q: Seq<i16>, lo: Seq<i16>, hi: Seq<i16>, n: int) -> int
    decreases n,
{
    if n <= 0 {
        0
    } else {
        gap_upto(q, lo, hi, n - 1) + gap_dim(q[n - 1] as int, lo[n - 1] as int, hi[n - 1] as int)
    }
}

/// Squared gap between a vector and a box.
pub open spec fn gap(q: Seq<i16>, lo: Seq<i16>, hi: Seq<i16>) -> int {
    gap_upto(q, lo, hi, DIM as int)
}

/// Whether a vector lies in a box.
pub open spec fn in_box(v: Seq<i16>, lo: Seq<i16>, hi: Seq<i16>) -> bool {
    forall|d: int| 0 <= d < DIM ==> lo[d] <= #[trigger] v[d] <= hi[d]
}

proof fn lemma_square_bound(x: int)
    requires
        -65_535 <= x <= 65_535,
    ensures
        0 <= square(x) <= 4_294_836_225,
{
    assert(0 <= x * x <= 4_294_836_225) by (nonlinear_arith)
        requires
            -65_535 <= x <= 65_535,
    ;
}

/// A distance over `n` coordinates is not negative and fits the accumulator.
pub proof fn lemma_dist_bound(a: Seq<i16>, b: Seq<i16>, n: int)
    requires
        0 <= n <= DIM,
    ensures
        0 <= dist_upto(a, b, n) <= n * 4_294_836_225,
    decreases n,
{
    if n > 0 {
        lemma_dist_bound(a, b, n - 1);
        lemma_square_bound(a[n - 1] - b[n - 1]);
    }
}

/// A gap over `n` coordinates is not negative and fits the accumulator.
pub proof fn lemma_gap_bound(q: Seq<i16>, lo: Seq<i16>, hi: Seq<i16>, n: int)
    requires
        0 <= n <= DIM,
    ensures
        0 <= gap_upto(q, lo, hi, n) <= n * 4_294_836_225,
    decreases n,
{
    if n > 0 {
        lemma_gap_bound(q, lo, hi, n - 1);
        if q[n - 1] < lo[n - 1] {
            lemma_square_bound(lo[n - 1] - q[n - 1]);
        } else if q[n - 1] > hi[n - 1] {
            lemma_square_bound(q[n - 1] - hi[n - 1]);
        }
    }
}

proof fn lemma_square_monotone(x: int, y: int)
    requires
        0 <= x <= y || y <= -x <= 0,
    ensures
        square(x) <= square(y),
{
    assert(x * x <= y * y) by (nonlinear_arith)
        requires
            0 <= x <= y || y <= -x <= 0,
    ;
}

proof fn lemma_gap_upto_below(v: Seq<i16>, q: Seq<i16>, lo: Seq<i16>, hi: Seq<i16>, n: int)
    requires
        in_box(v, lo, hi),
        0 <= n <= DIM,
    ensures
        gap_upto(q, lo, hi, n) <= dist_upto(v, q, n),
    decreases n,
{
    if n > 0 {
        lemma_gap_upto_below(v, q, lo, hi, n - 1);
        let d = n - 1;
        let diff = v[d] - q[d];
        assert(lo[d] <= v[d] <= hi[d]);
        assert(square(diff) >= 0) by {
            lemma_square_bound(diff);
        }
        if q[d] < lo[d] {
            lemma_square_monotone(lo[d] - q[d], diff);
        } else if q[d] > hi[d] {
            lemma_square_monotone(q[d] - hi[d], diff);
        }
    }
}

/// The gap to a box never exceeds the distance to a vector in the box.
pub proof fn gap_is_lower_bound(v: Seq<i16>, q: Seq<i16>, lo: Seq<i16>, hi: Seq<i16>)
    requires
        in_box(v, lo, hi),
    ensures
        gap(q, lo, hi) <= distance(v, q),
{
    lemma_gap_upto_below(v, q, lo, hi, DIM as int);
}

proof fn lemma_gap_zero(q: Seq<i16>, lo: Seq<i16>, hi: Seq<i16>, n: int)
    requires
        0 <= n <= DIM,
        in_box(q, lo, hi),
    ensures
        gap_upto(q, lo, hi, n) == 0,
    decreases n,
{
    if n > 0 {
        lemma_gap_zero(q, lo, hi, n - 1);
        assert(lo[n - 1] <= q[n - 1] <= hi[n - 1]);
    }
}

proof fn lemma_gap_positive(q: Seq<i16>, lo: Seq<i16>, hi: Seq<i16>, d: int, n: int)
    requires
        0 <= d < n <= DIM,
        q[d] < lo[d] || q[d] > hi[d],
    ensures
        gap_upto(q, lo, hi, n) > 0,
    decreases n,
{
    lemma_gap_bound(q, lo, hi, n - 1);
    let g = gap_dim(q[n - 1] as int, lo[n - 1] as int, hi[n - 1] as int);
    if q[n - 1] < lo[n - 1] {
        assert(g > 0) by (nonlinear_arith)
            requires
                g == (lo[n - 1] - q[n - 1]) * (lo[n - 1] - q[n - 1]),
                lo[n - 1] - q[n - 1] > 0,
        ;
    } else if q[n - 1] > hi[n - 1] {
        assert(g > 0) by (nonlinear_arith)
            requires
                g == (q[n - 1] - hi[n - 1]) * (q[n - 1] - hi[n - 1]),
                q[n - 1] - hi[n - 1] > 0,
        ;
    }
    if d < n - 1 {
        lemma_gap_positive(q, lo, hi, d, n - 1);
    }
}

/// The gap to a box is zero exactly for the vectors in the box.
pub proof fn gap_is_zero_inside(q: Seq<i16>, lo: Seq<i16>, hi: Seq<i16>)
    requires
        forall|d: int| 0 <= d < DIM ==> #[trigger] lo[d] <= hi[d],
    ensures
        gap(q, lo, hi) == 0 <==> in_box(q, lo, hi),
{
    if in_box(q, lo, hi) {
        lemma_gap_zero(q, lo, hi, DIM as int);
    } else {
        let d = choose|d: int| 0 <= d < DIM && !(lo[d] <= #[trigger] q[d] <= hi[d]);
        lemma_gap_positive(q, lo, hi, d, DIM as int);
    }
}

/// Squared gap between a coordinate and an interval.
fn lower_bound_dim(q: i16, lo: i16, hi: i16) -> (r: i64)
    ensures
        r == gap_dim(q as int, lo as int, hi as int),
        0 <= r <= 4_294_836_225,
{
    let diff: i64 = if q < lo {
        lo as i64 - q as i64
    } else if q > hi {
        q as i64 - hi as i64
    } else {
        0
    };
    proof {
        lemma_square_bound(diff as int);
    }
    diff * diff
}

/// Squared gap between a vector and a box: no vector of the box is closer.
pub fn lower_bound_vec(
    q: &[i16; STORE_DIM],
    min: &[i16; STORE_DIM],
    max: &[i16; STORE_DIM],
) -> (r: i64)
    ensures
        r == gap(q@, min@, max@),
        forall|v: Seq<i16>| #[trigger] in_box(v, min@, max@) ==> r <= distance(v, q@),
{
    let mut acc: i64 = 0;
    let mut d: usize = 0;
    while d < DIM
        invariant
            d <= DIM,
            acc == gap_upto(q@, min@, max@, d as int),
        decreases DIM - d,
    {
        proof {
            lemma_gap_bound(q@, min@, max@, d as int);
        }
        acc += lower_bound_dim(q[d], min[d], max[d]);
        d += 1;
    }
    proof {
        assert forall|v: Seq<i16>| #[trigger] in_box(v, min@, max@) implies acc <= distance(v, q@) by {
            gap_is_lower_bound(v, q@, min@, max@);
        }
    }
    acc
}

/// Squared distance of two vectors.
pub fn distance_qv(a: &[i16; STORE_DIM], b: &[i16; STORE_DIM]) -> (r: i64)
    ensures
        r == distance(a@, b@),
{
    let mut acc: i64 = 0;
    let mut d: usize = 0;
    while d < DIM
        invariant
            d <= DIM,
            acc == dist_upto(a@, b@, d as int),
        decreases DIM - d,
    {
        let diff: i64 = a[d] as i64 - b[d] as i64;
        proof {
            lemma_dist_bound(a@, b@, d as int);
            lemma_square_bound(diff as int);
        }
        acc += diff * diff;
        d += 1;
    }
    acc
}

} // verus!
