use detecta_fraude::index::distance::{distance_qv, lower_bound_vec, partition_key};
use detecta_fraude::index::shortlist::{early_done, insert_best, sum_labels};
use detecta_fraude::{K, SCALE, STORE_DIM};

#[test]
fn partition_key_matches_expected_bits() {
    let mut v = [0i16; STORE_DIM];
    assert_eq!(partition_key(&v), 1);
    v[5] = -10000;
    assert_eq!(partition_key(&v), 0);
    v[9] = 10000;
    v[10] = 10000;
    v[11] = 10000;
    v[12] = 8000;
    v[2] = 5000;
    v[8] = 3000;
    assert_eq!(partition_key(&v), 0b1111_1110);
}

#[test]
fn lower_bound_is_zero_inside_box() {
    let q = [100i16; STORE_DIM];
    let lo = [50i16; STORE_DIM];
    let hi = [200i16; STORE_DIM];
    assert_eq!(lower_bound_vec(&q, &lo, &hi), 0);
}

#[test]
fn lower_bound_counts_each_dimension_outside() {
    let mut q = [100i16; STORE_DIM];
    let lo = [50i16; STORE_DIM];
    let hi = [200i16; STORE_DIM];
    q[0] = 47;
    q[13] = 204;
    // The last two coordinates do not count.
    q[14] = 10_000;
    q[15] = -10_000;
    assert_eq!(lower_bound_vec(&q, &lo, &hi), 9 + 16);
}

#[test]
fn lower_bound_survives_extreme_values() {
    let q = [i16::MIN; STORE_DIM];
    let b = [i16::MAX; STORE_DIM];
    assert_eq!(lower_bound_vec(&q, &b, &b), 14 * 65_535i64 * 65_535);
    assert_eq!(distance_qv(&q, &b), 14 * 65_535i64 * 65_535);
}

#[test]
fn lower_bound_never_exceeds_a_distance_in_the_box() {
    let mut q = [0i16; STORE_DIM];
    let mut v = [0i16; STORE_DIM];
    for d in 0..STORE_DIM {
        q[d] = (d as i16) * 700 - 4000;
        v[d] = 3000 - (d as i16) * 300;
    }
    let mut lo = v;
    let mut hi = v;
    for d in 0..STORE_DIM {
        lo[d] -= 111;
        hi[d] += 57;
    }
    let bound = lower_bound_vec(&q, &lo, &hi);
    assert!(bound > 0);
    assert!(bound <= distance_qv(&v, &q));
}

#[test]
fn risk_bands_split_at_their_limits() {
    let mut v = [0i16; STORE_DIM];
    for (risk, band) in [(2047i16, 0u32), (2048, 1), (4095, 1), (4096, 2), (6143, 2), (6144, 3)] {
        v[12] = risk;
        assert_eq!(partition_key(&v), 1 + 16 * band);
    }
}

#[test]
fn short_list_keeps_the_closest() {
    let mut dists = [i64::MAX; K];
    let mut labels = [0u8; K];
    for (d, l) in [(50, 1), (10, 0), (30, 1), (20, 0), (40, 1)] {
        insert_best(d, l, &mut dists, &mut labels);
    }
    assert_eq!(dists, [10, 20, 30, 40, 50]);
    assert_eq!(labels, [0, 0, 1, 1, 1]);
    assert_eq!(sum_labels(&labels), 3);
    // A candidate at the distance of the last one does not enter.
    insert_best(50, 0, &mut dists, &mut labels);
    assert_eq!(labels, [0, 0, 1, 1, 1]);
    // One at the distance of another goes behind it.
    insert_best(20, 1, &mut dists, &mut labels);
    assert_eq!(dists, [10, 20, 20, 30, 40]);
    assert_eq!(labels, [0, 0, 1, 1, 1]);
}

#[test]
fn early_end_needs_a_full_list_of_close_ones() {
    assert!(!early_done(&[1, 1, 1, 1, i64::MAX]));
    assert!(early_done(&[1, 1, 1, 1, 1_960_000]));
    assert!(!early_done(&[1, 1, 1, 1, 1_960_001]));
    assert_eq!((SCALE as i64 * 14 / 100) * (SCALE as i64 * 14 / 100), 1_960_000);
}
