use detecta_fraude::index::build::clusters::split_ivf_ranges;
use detecta_fraude::index::build::grow::build_tree;
use detecta_fraude::index::build::{kd_leaf_size, Builder};
use detecta_fraude::index::distance::distance_qv;
use detecta_fraude::index::early::fraud_count_scalar;
use detecta_fraude::index::hunt::Hunt;
use detecta_fraude::index::ivf::insert_cluster_probe;
use detecta_fraude::index::stats::{
    inc_blocks, inc_leaves, inc_nodes, inc_parts, reset, set_early_hit, set_primary_hit, snapshot,
    QueryStats,
};
use detecta_fraude::index::{
    pair_offset, IndexError, IndexReader, DEFAULT_LEAF_SIZE, HEADER_SIZE, NODE_SIZE,
};
use detecta_fraude::STORE_DIM;

fn next(state: &mut u64) -> u64 {
    *state = state.wrapping_mul(6364136223846793005).wrapping_add(1442695040888963407);
    *state >> 33
}

fn random_vector(state: &mut u64) -> [i16; STORE_DIM] {
    let mut v = [0i16; STORE_DIM];
    for d in 0..14 {
        v[d] = (next(state) % 10_001) as i16;
    }
    if next(state) % 4 == 0 {
        v[5] = -10_000;
        v[6] = -10_000;
    }
    for d in 9..12 {
        v[d] = if next(state) % 2 == 0 { 0 } else { 10_000 };
    }
    v
}

fn sample(n: usize, seed: u64, frauds: u64) -> (Vec<[i16; STORE_DIM]>, Vec<u8>) {
    let mut state = seed;
    let mut vectors = Vec::new();
    let mut labels = Vec::new();
    for _ in 0..n {
        let v = random_vector(&mut state);
        vectors.push(v);
        labels.push(if next(&mut state) % 100 < frauds { 1 } else { 0 });
    }
    (vectors, labels)
}

fn builder_of(vectors: &[[i16; STORE_DIM]], labels: &[u8]) -> Builder {
    let mut b = Builder::new();
    for (v, l) in vectors.iter().zip(labels) {
        b.add(*v, *l);
    }
    b
}

/// The labels of the five nearest, where no tie leaves the choice open.
fn brute_force(vectors: &[[i16; STORE_DIM]], labels: &[u8], q: &[i16; STORE_DIM]) -> Option<u8> {
    let mut all: Vec<(i64, u8)> = vectors
        .iter()
        .zip(labels)
        .map(|(v, l)| (distance_qv(v, q), *l))
        .collect();
    all.sort();
    if all.len() > 5 && all[4].0 == all[5].0 {
        return None;
    }
    Some(all.iter().take(5).map(|e| e.1).sum())
}

fn has_five_close(vectors: &[[i16; STORE_DIM]], q: &[i16; STORE_DIM]) -> bool {
    vectors.iter().filter(|v| distance_qv(v, q) <= 1_960_000).count() >= 5
}

#[test]
fn exact_search_finds_the_five_nearest() {
    for (seed, frauds, leaf) in [(1u64, 50u64, 8usize), (2, 5, 8), (3, 95, 16), (4, 0, 8), (5, 100, 8)] {
        let (vectors, labels) = sample(400, seed, frauds);
        let bytes = builder_of(&vectors, &labels).to_bytes(leaf).unwrap();
        let idx = IndexReader::from_bytes(&bytes, seed % 2 == 0).unwrap();
        assert!(idx.is_searchable());
        let mut state = seed + 1000;
        for _ in 0..200 {
            let q = random_vector(&mut state);
            if let Some(expected) = brute_force(&vectors, &labels, &q) {
                assert_eq!(idx.fraud_count(&q), expected);
                assert_eq!(idx.fraud_count_exact(&q), expected);
            }
        }
        for v in vectors.iter().take(50) {
            if let Some(expected) = brute_force(&vectors, &labels, v) {
                assert_eq!(idx.fraud_count(v), expected);
            }
        }
    }
}

#[test]
fn exact_search_agrees_on_a_mixed_neighbourhood() {
    // Five of one label close by, and the other label just behind them.
    let mut b = Builder::new();
    let mut vectors = Vec::new();
    let mut labels = Vec::new();
    for i in 0..60i16 {
        let mut v = [0i16; STORE_DIM];
        v[0] = i * 10;
        vectors.push(v);
        labels.push(if i % 7 == 6 { 1 } else { 0 });
    }
    for (v, l) in vectors.iter().zip(&labels) {
        b.add(*v, *l);
    }
    let bytes = b.to_bytes(8).unwrap();
    let idx = IndexReader::from_bytes(&bytes, true).unwrap();
    for x in 0..600i16 {
        let mut q = [0i16; STORE_DIM];
        q[0] = x;
        if let Some(expected) = brute_force(&vectors, &labels, &q) {
            assert_eq!(idx.fraud_count(&q), expected);
        }
    }
}

#[test]
fn early_search_is_exact_where_nothing_is_close() {
    let (vectors, labels) = sample(400, 11, 40);
    let bytes = builder_of(&vectors, &labels).to_bytes(8).unwrap();
    let idx = IndexReader::from_bytes(&bytes, false).unwrap();
    let mut state = 99;
    let mut checked = 0;
    for _ in 0..200 {
        let q = random_vector(&mut state);
        if has_five_close(&vectors, &q) {
            continue;
        }
        if let Some(expected) = brute_force(&vectors, &labels, &q) {
            assert_eq!(fraud_count_scalar(&idx, &q), expected);
            checked += 1;
        }
    }
    assert!(checked > 50);
}

#[test]
fn early_search_ends_in_the_first_partition() {
    let v = [1000i16; STORE_DIM];
    let mut b = Builder::new();
    for _ in 0..6 {
        b.add(v, 1);
    }
    let mut other = v;
    other[9] = 0;
    b.add(other, 0);
    let bytes = b.to_bytes(8).unwrap();
    let idx = IndexReader::from_bytes(&bytes, true).unwrap();
    assert_eq!(idx.part_count(), 2);
    let mut stats = QueryStats::default();
    assert_eq!(idx.fraud_count_with_stats(&v, &mut stats), 5);
    assert_eq!(
        stats,
        QueryStats {
            nodes: 1,
            leaves: 1,
            blocks: 1,
            partitions: 1,
            primary_hit: true,
            early_hit: true,
        }
    );
}

#[test]
fn early_search_goes_on_to_other_partitions() {
    let near = [0i16; STORE_DIM];
    let mut far = near;
    far[9] = 100;
    let mut b = Builder::new();
    b.add(near, 1);
    for _ in 0..5 {
        b.add(far, 0);
    }
    let bytes = b.to_bytes(8).unwrap();
    let idx = IndexReader::from_bytes(&bytes, true).unwrap();
    let mut stats = QueryStats::default();
    assert_eq!(idx.fraud_count_with_stats(&near, &mut stats), 1);
    assert_eq!(stats.partitions, 2);
    assert!(!stats.primary_hit);
    assert!(stats.early_hit);
}

#[test]
fn few_vectors_are_all_counted() {
    let mut b = Builder::new();
    b.add([5; STORE_DIM], 1);
    b.add([9; STORE_DIM], 1);
    b.add([7; STORE_DIM], 0);
    let bytes = b.to_bytes(DEFAULT_LEAF_SIZE).unwrap();
    for wide in [false, true] {
        let idx = IndexReader::from_bytes(&bytes, wide).unwrap();
        assert_eq!(idx.n_points(), 3);
        assert_eq!(idx.block_count(), 1);
        assert_eq!(idx.fraud_count(&[6; STORE_DIM]), 2);
    }
}

#[test]
fn a_built_file_has_its_sections() {
    let (vectors, labels) = sample(100, 21, 30);
    let bytes = builder_of(&vectors, &labels).to_bytes(8).unwrap();
    let idx = IndexReader::from_bytes(&bytes, true).unwrap();
    let expected = HEADER_SIZE
        + idx.part_count() as usize * 76
        + idx.node_count() as usize * 80
        + idx.block_count() as usize * 232
        + 2048;
    assert_eq!(bytes.len(), expected);
    assert_eq!(&bytes[..8], b"DFKNN001");
    assert_eq!(bytes[8], 6);
    assert!(bytes[44..64].iter().all(|&b| b == 0));
    assert_eq!(idx.n_points(), 100);
}

#[test]
fn a_built_file_knows_merchant_risks() {
    let mut b = Builder::new();
    b.add([0; STORE_DIM], 0);
    for bytes in [b.to_bytes(8).unwrap(), b.to_ivf_bytes().unwrap()] {
        let idx = IndexReader::from_bytes(&bytes, true).unwrap();
        for (code, risk) in [
            (5411u32, 1500i16),
            (5812, 3000),
            (5912, 2000),
            (5944, 4500),
            (7801, 8000),
            (7802, 7500),
            (7995, 8500),
            (4511, 3500),
            (5311, 2500),
            (5999, 5000),
            (1234, 5000),
        ] {
            assert_eq!(idx.mcc_risk(code), risk);
        }
        // Codes are looked up by their remainder.
        assert_eq!(idx.mcc_risk(5411 % 1024), 1500);
    }
}

fn error_of(bytes: &[u8]) -> IndexError {
    match IndexReader::from_bytes(bytes, true) {
        Ok(_) => panic!("accepted"),
        Err(e) => e,
    }
}

#[test]
fn damaged_files_are_refused() {
    let (vectors, labels) = sample(50, 31, 30);
    let b = builder_of(&vectors, &labels);
    let good = b.to_bytes(8).unwrap();
    assert_eq!(error_of(&good[..63]), IndexError::TooSmall);
    let mut bad = good.clone();
    bad[0] = b'X';
    assert_eq!(error_of(&bad), IndexError::BadMagic);
    let mut bad = good.clone();
    bad[8] = 3;
    assert_eq!(error_of(&bad), IndexError::BadMagic);
    let mut bad = good.clone();
    bad[16] = 13;
    assert_eq!(error_of(&bad), IndexError::DimMismatch);
    let mut bad = good.clone();
    bad.push(0);
    assert_eq!(error_of(&bad), IndexError::SizeMismatch);
    let mut bad = good.clone();
    bad[40] ^= 1;
    assert_eq!(error_of(&bad), IndexError::SizeMismatch);
    let mut bad = b.to_ivf_bytes().unwrap();
    bad.pop();
    assert_eq!(error_of(&bad), IndexError::IvfSizeMismatch);
    assert_eq!(IndexError::TooSmall.message(), "index too small");
    assert_eq!(IndexError::BadMagic.message(), "bad magic/version");
    assert_eq!(IndexError::DimMismatch.message(), "dim/scale mismatch");
    assert_eq!(IndexError::SizeMismatch.message(), "index size mismatch");
    assert_eq!(IndexError::IvfSizeMismatch.message(), "ivf index size mismatch");
}

#[test]
fn trees_that_leave_the_file_are_noticed() {
    let (vectors, labels) = sample(50, 41, 30);
    let good = builder_of(&vectors, &labels).to_bytes(8).unwrap();
    let parts = IndexReader::from_bytes(&good, true).unwrap().part_count() as usize;
    let node = HEADER_SIZE + parts * 76;
    assert_eq!(NODE_SIZE, 80);
    // The first node points at itself.
    let mut bad = good.clone();
    bad[node..node + 4].copy_from_slice(&0i32.to_le_bytes());
    let idx = IndexReader::from_bytes(&bad, true).unwrap();
    assert!(!idx.is_searchable());
    // A leaf begins behind the last block.
    let mut bad = good.clone();
    bad[node..node + 4].copy_from_slice(&(-1i32).to_le_bytes());
    bad[node + 8..node + 12].copy_from_slice(&1_000_000i32.to_le_bytes());
    let idx = IndexReader::from_bytes(&bad, true).unwrap();
    assert!(!idx.is_searchable());
}

#[test]
fn cluster_search_is_exact_where_all_clusters_are_scanned() {
    let (vectors, labels) = sample(60, 51, 40);
    let bytes = builder_of(&vectors, &labels).to_ivf_bytes().unwrap();
    for wide in [false, true] {
        let idx = IndexReader::from_bytes(&bytes, wide).unwrap();
        assert!(idx.is_searchable());
        assert_eq!(idx.part_count(), 8);
        assert_eq!(idx.node_count(), 0);
        let mut state = 7;
        for _ in 0..100 {
            let q = random_vector(&mut state);
            if let Some(expected) = brute_force(&vectors, &labels, &q) {
                assert_eq!(idx.fraud_count(&q), expected);
            }
        }
    }
}

#[test]
fn cluster_search_repairs_unclear_counts() {
    let (vectors, labels) = sample(900, 61, 50);
    let bytes = builder_of(&vectors, &labels).to_ivf_bytes().unwrap();
    let wide = IndexReader::from_bytes(&bytes, true).unwrap();
    assert!(wide.part_count() > 100);
    let mut state = 8;
    for _ in 0..100 {
        let q = random_vector(&mut state);
        if let Some(expected) = brute_force(&vectors, &labels, &q) {
            let got = wide.fraud_count(&q);
            // A repair ends when the count is clear; an unclear one is exact.
            if got > 0 && got < 5 {
                assert_eq!(got, expected);
            }
        }
    }
}

#[test]
fn probes_keep_the_closest_clusters() {
    let mut probes = [(usize::MAX, i64::MAX); 3];
    let mut count = 0;
    for (c, d) in [(0usize, 30i64), (1, 10), (2, 20), (3, 20), (4, 5), (5, 20)] {
        insert_cluster_probe(c, d, &mut probes, &mut count);
    }
    assert_eq!(count, 3);
    assert_eq!(probes, [(4, 5), (1, 10), (2, 20)]);
}

#[test]
fn a_hunt_pins_one_label() {
    let mut h = Hunt::fresh();
    assert_eq!(h.ceil(), i64::MAX);
    for d in 0..4 {
        h.accept(d, 0);
    }
    assert!(!h.skippable(1));
    h.accept(9, 0);
    assert!(h.pinned);
    assert_eq!(h.ceil(), 9);
    // Trees without a fraudulent vector can wait.
    assert!(h.skippable(1));
    assert!(!h.skippable(2));
    assert!(!h.skippable(3));
    assert!(h.stash(7, 3));
    assert!(!h.unsettled());
    h.accept(5, 1);
    assert!(h.unsettled());
    assert!(!h.skippable(1));
    assert_eq!(h.verdict(), 1);
}

#[test]
fn a_hunt_stashes_only_so_many() {
    let mut h = Hunt::fresh();
    for i in 0..256 {
        assert!(h.stash(i, 0));
    }
    assert!(!h.stash(256, 0));
}

#[test]
fn counters_count() {
    let mut s = QueryStats::default();
    inc_nodes(&mut s);
    inc_nodes(&mut s);
    inc_leaves(&mut s);
    inc_blocks(&mut s);
    inc_parts(&mut s);
    set_primary_hit(&mut s);
    set_early_hit(&mut s);
    let t = snapshot(&s);
    assert_eq!((t.nodes, t.leaves, t.blocks, t.partitions), (2, 1, 1, 1));
    assert!(t.primary_hit && t.early_hit);
    reset(&mut s);
    assert_eq!(s, QueryStats::default());
}

#[test]
fn leaf_sizes_are_kept_reasonable() {
    assert_eq!(kd_leaf_size(None), 256);
    assert_eq!(kd_leaf_size(Some(7)), 256);
    assert_eq!(kd_leaf_size(Some(8)), 8);
    assert_eq!(kd_leaf_size(Some(1024)), 1024);
    assert_eq!(kd_leaf_size(Some(1025)), 256);
}

/// The same index with one coordinate of all lanes after the other.
fn without_pairs(bytes: &[u8]) -> Vec<u8> {
    let idx = IndexReader::from_bytes(bytes, true).unwrap();
    let start = idx.vectors_offset();
    let mut out = bytes.to_vec();
    out[8] = 4;
    for b in 0..idx.block_count() as usize {
        let block = start + b * 224;
        for d in 0..14 {
            for lane in 0..8 {
                let from = block + 2 * pair_offset(d, lane);
                let to = block + 2 * (d * 8 + lane);
                out[to..to + 2].copy_from_slice(&bytes[from..from + 2]);
            }
        }
    }
    out
}

#[test]
fn both_layouts_hold_the_same_vectors() {
    let (vectors, labels) = sample(300, 71, 40);
    let pairs = builder_of(&vectors, &labels).to_bytes(8).unwrap();
    let plain = without_pairs(&pairs);
    let a = IndexReader::from_bytes(&pairs, false).unwrap();
    for wide in [false, true] {
        let b = IndexReader::from_bytes(&plain, wide).unwrap();
        assert!(b.is_searchable());
        let mut state = 9;
        for _ in 0..100 {
            let q = random_vector(&mut state);
            assert_eq!(fraud_count_scalar(&a, &q), b.fraud_count(&q));
            let mut stats = QueryStats::default();
            assert_eq!(b.fraud_count_with_stats(&q, &mut stats), b.fraud_count(&q));
            assert_eq!(stats, QueryStats::default());
        }
    }
}

#[test]
fn searches_can_be_repeated() {
    let (vectors, labels) = sample(500, 81, 40);
    let bytes = builder_of(&vectors, &labels).to_bytes(8).unwrap();
    let idx = IndexReader::from_bytes(&bytes, true).unwrap();
    let mut state = 10;
    for _ in 0..50 {
        let q = random_vector(&mut state);
        let mut first = QueryStats::default();
        let mut second = QueryStats::default();
        let count = idx.fraud_count_with_stats(&q, &mut first);
        assert_eq!(idx.fraud_count_with_stats(&q, &mut second), count);
        assert_eq!(first, second);
        assert_eq!(idx.fraud_count(&q), idx.fraud_count(&q));
    }
}

#[test]
fn a_cluster_file_holds_its_vectors() {
    let (vectors, labels) = sample(100, 91, 40);
    let bytes = builder_of(&vectors, &labels).to_ivf_bytes().unwrap();
    let idx = IndexReader::from_bytes(&bytes, true).unwrap();
    let mut total = 0;
    for c in 0..idx.part_count() as usize {
        assert!(idx.ivf_offset(c) <= idx.ivf_offset(c + 1));
        total += idx.ivf_count(c);
    }
    assert_eq!(total, 100);
    for (v, l) in vectors.iter().zip(&labels) {
        let mut found = false;
        for c in 0..idx.part_count() as usize {
            for s in 0..idx.ivf_count(c) as usize {
                let slot = idx.ivf_offset(c) as usize * 8 + s;
                if idx.slot_distance(slot, v) == 0 && idx.slot_label(slot) == *l {
                    found = true;
                    assert_eq!(idx.lower_bound_cluster(c, v), 0);
                }
            }
        }
        assert!(found);
    }
}

#[test]
fn a_hunt_keeps_the_five_smallest() {
    let mut state = 17;
    for _ in 0..50 {
        let mut h = Hunt::fresh();
        let mut offers: Vec<(i64, usize, u8)> = Vec::new();
        let mut first = None;
        for i in 0..30usize {
            let d = (next(&mut state) % 12) as i64;
            let t = (next(&mut state) % 2) as u8;
            h.accept(d, t);
            offers.push((d, i, t));
            let mut best = offers.clone();
            best.sort();
            best.truncate(5);
            for (k, e) in best.iter().enumerate() {
                assert_eq!((h.dist[k], h.tag[k]), (e.0, e.2));
            }
            let tally: u8 = best.iter().map(|e| e.2).sum();
            assert_eq!(h.seen as usize, best.len());
            assert_eq!(h.tally, tally);
            assert_eq!(h.verdict(), tally);
            if first.is_none() && best.len() == 5 && (tally == 0 || tally == 5) {
                first = Some(tally);
            }
            assert_eq!(h.pinned, first.is_some());
            if let Some(anchor) = first {
                assert_eq!(h.anchor, anchor);
                assert_eq!(h.seek, if anchor == 0 { 2 } else { 1 });
            }
        }
    }
    let mut h = Hunt::fresh();
    h.accept(i64::MAX, 1);
    assert_eq!((h.seen, h.tally), (0, 0));
}

#[test]
fn a_grown_tree_stores_whole_vectors() {
    let (vectors, labels) = sample(40, 101, 50);
    let mut whole = vectors.clone();
    for (i, v) in whole.iter_mut().enumerate() {
        v[14] = i as i16;
        v[15] = -(i as i16);
    }
    let filled = vec![([7i16; STORE_DIM], 1u8); 8];
    let mut blocks = filled.clone();
    let mut nodes = Vec::new();
    let indices: Vec<usize> = (0..37).collect();
    let root = build_tree(&whole, &labels, &indices, 10, &mut blocks, &mut nodes);
    assert_eq!(root, 0);
    assert_eq!(&blocks[..8], &filled[..]);
    assert_eq!(blocks.len() % 8, 0);
    let mut stored = Vec::new();
    let mut end = 8;
    for n in nodes.iter().filter(|n| n.left < 0) {
        assert_eq!(n.start as usize, end);
        let len = n.len as usize;
        assert!(len <= 10);
        stored.extend_from_slice(&blocks[end..end + len]);
        let stop = end + (len + 7) / 8 * 8;
        for b in &blocks[end + len..stop] {
            assert_eq!(*b, ([i16::MAX; STORE_DIM], 0));
        }
        end = stop;
    }
    assert_eq!(end, blocks.len());
    stored.sort();
    let mut expected: Vec<_> = indices.iter().map(|&i| (whole[i], labels[i])).collect();
    expected.sort();
    assert_eq!(stored, expected);
}

#[test]
fn splitting_stays_within_its_target() {
    let (vectors, _) = sample(200, 111, 50);
    for target in [0usize, 1, 2, 7, 16] {
        let lists = split_ivf_ranges(&vectors, target);
        assert_eq!(lists.len(), target.max(1));
        let mut all: Vec<usize> = lists.iter().flatten().copied().collect();
        all.sort();
        assert_eq!(all, (0..200).collect::<Vec<usize>>());
    }
    let lists = split_ivf_ranges(&vectors, 4096);
    assert!(lists.iter().all(|l| l.len() <= 8));
}

#[test]
fn the_counted_search_counts_its_work() {
    let (vectors, labels) = sample(200, 121, 50);
    let b = builder_of(&vectors, &labels);
    let tree = b.to_bytes(8).unwrap();
    let idx = IndexReader::from_bytes(&tree, true).unwrap();
    let mut stats = QueryStats::default();
    let count = idx.fraud_count_with_stats(&vectors[0], &mut stats);
    assert_eq!(count, fraud_count_scalar(&idx, &vectors[0]));
    assert!(stats.nodes > 0 && stats.leaves > 0 && stats.partitions > 0);
    let plain = IndexReader::from_bytes(&tree, false).unwrap();
    let mut stats = QueryStats::default();
    assert_eq!(plain.fraud_count_with_stats(&vectors[0], &mut stats), count);
    assert_eq!(stats, QueryStats::default());
    let clusters = b.to_ivf_bytes().unwrap();
    let idx = IndexReader::from_bytes(&clusters, true).unwrap();
    let mut stats = QueryStats::default();
    let count = idx.fraud_count_with_stats(&vectors[0], &mut stats);
    assert_eq!(count, idx.fraud_count(&vectors[0]));
    assert_eq!(stats, QueryStats::default());
}
