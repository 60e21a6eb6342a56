use fraud_detection::dataset::{preprocess, Chunk, Dataset, RefEntry, DIMS, PADDED_DIMS};
use fraud_detection::neighbours::{fraud_count, merge_top_k};
use fraud_detection::search::{
    dist_sq_preloaded, dist_sq_u8_scalar, knn_search, preload, scan_chunk,
};
use fraud_detection::vectorize::padded_query;

fn bytes(seed: u64, n: usize) -> Vec<u8> {
    let mut x = seed.wrapping_mul(0x9E37_79B9_7F4A_7C15) | 1;
    (0..n)
        .map(|_| {
            x ^= x << 13;
            x ^= x >> 7;
            x ^= x << 17;
            (x >> 32) as u8
        })
        .collect()
}

fn array<const N: usize>(v: &[u8]) -> [u8; N] {
    v.try_into().unwrap()
}

fn reference_distance(a: &[u8], b: &[u8]) -> u32 {
    a.iter().zip(b).map(|(x, y)| (*x as i32 - *y as i32).pow(2) as u32).sum()
}

#[test]
fn distances() {
    let zeros = [0u8; PADDED_DIMS];
    let full = [255u8; PADDED_DIMS];
    assert_eq!(dist_sq_u8_scalar(&zeros, &full), 1040400);
    assert_eq!(dist_sq_preloaded(&preload(&zeros), &full), 1040400);
    assert_eq!(dist_sq_u8_scalar(&full, &full), 0);
    for seed in 0..200 {
        let a = bytes(seed, PADDED_DIMS);
        let b = bytes(seed + 1000, PADDED_DIMS);
        let d = reference_distance(&a, &b);
        assert_eq!(dist_sq_u8_scalar(&a, &b), d);
        assert_eq!(dist_sq_u8_scalar(&b, &a), d);
        assert_eq!(dist_sq_preloaded(&preload(&array(&a)), &b), d);
    }
}

#[test]
fn padding_does_not_count() {
    let a = bytes(3, DIMS);
    let b = bytes(4, DIMS);
    let pa = padded_query(&array(&a));
    let pb = padded_query(&array(&b));
    assert_eq!(&pa[..DIMS], &a[..]);
    assert_eq!(&pa[DIMS..], &[128, 128]);
    assert_eq!(dist_sq_u8_scalar(&pa, &pb), reference_distance(&a, &b));
}

#[test]
fn merging() {
    let max = u32::MAX;
    let empty = ([max; 5], [0u8; 5]);
    let a = ([5, 1, 4, 2, 3], [1, 0, 1, 0, 1]);
    assert_eq!(merge_top_k(a.0, a.1, empty.0, empty.1), a);
    assert_eq!(merge_top_k(empty.0, empty.1, a.0, a.1), a);
    let b = ([0, 6, max, 3, 9], [1, 1, 0, 0, 1]);
    // 0 takes the place of 5, and 3 that of 4.
    assert_eq!(merge_top_k(a.0, a.1, b.0, b.1), ([0, 1, 3, 2, 3], [1, 0, 0, 0, 1]));
    // An equal distance does not displace.
    let c = ([5; 5], [1; 5]);
    assert_eq!(merge_top_k(a.0, a.1, c.0, c.1), a);
}

#[test]
fn merges_keep_the_nearest_however_they_are_grouped() {
    let n = 60usize;
    let vectors = bytes(77, n * PADDED_DIMS);
    let labels = bytes(78, n);
    let query: [u8; PADDED_DIMS] = array(&bytes(79, PADDED_DIMS));
    let mut all: Vec<(u32, u8)> = (0..n)
        .map(|i| {
            let v = &vectors[i * PADDED_DIMS..(i + 1) * PADDED_DIMS];
            (reference_distance(&query, v), labels[i])
        })
        .collect();
    all.sort();
    assert!(all[4].0 < all[5].0);
    for cuts in [[10usize, 20], [3, 57], [0, 1], [30, 30], [4, 60]] {
        let part = |from: usize, to: usize| {
            let chunk = Chunk {
                vectors: &vectors[from * PADDED_DIMS..to * PADDED_DIMS],
                labels: &labels[from..to],
                count: to - from,
            };
            scan_chunk(&chunk, &query)
        };
        let (a, b, c) = (part(0, cuts[0]), part(cuts[0], cuts[1]), part(cuts[1], n));
        let ab = merge_top_k(a.0, a.1, b.0, b.1);
        let bc = merge_top_k(b.0, b.1, c.0, c.1);
        for top in [merge_top_k(ab.0, ab.1, c.0, c.1), merge_top_k(a.0, a.1, bc.0, bc.1)] {
            let mut found: Vec<(u32, u8)> =
                top.0.iter().copied().zip(top.1.iter().copied()).collect();
            found.sort();
            assert_eq!(found, all[..5]);
        }
    }
}

#[test]
fn votes_are_added() {
    assert_eq!(fraud_count(&[0, 0, 0, 0, 0]), 0);
    assert_eq!(fraud_count(&[1, 0, 1, 0, 1]), 3);
    assert_eq!(fraud_count(&[255; 5]), 1275);
}

#[test]
fn scanning_a_chunk() {
    let query = [10u8; PADDED_DIMS];
    for count in 0usize..12 {
        let mut vectors = Vec::new();
        for i in 0..count {
            vectors.extend_from_slice(&[10 + (count - i) as u8; PADDED_DIMS]);
        }
        let labels: Vec<u8> = (0..count).map(|i| i as u8).collect();
        let chunk = Chunk { vectors: &vectors, labels: &labels, count };
        let (d, l) = scan_chunk(&chunk, &query);
        let mut found: Vec<(u32, u8)> = d.iter().copied().zip(l.iter().copied()).collect();
        found.sort();
        for slot in 0..5usize {
            if slot < count {
                let dist = (slot as u32 + 1) * (slot as u32 + 1) * 16;
                assert_eq!(found[slot], (dist, (count - 1 - slot) as u8));
            } else {
                assert_eq!(found[slot], (u32::MAX, 0));
            }
        }
    }
}

#[test]
fn exact_matches_end_a_scan() {
    let query = [7u8; PADDED_DIMS];
    for count in [5usize, 6, 8, 9, 13] {
        let vectors = vec![7u8; count * PADDED_DIMS];
        let mut labels = vec![0u8; count];
        labels[0] = 1;
        labels[4] = 1;
        let chunk = Chunk { vectors: &vectors, labels: &labels, count };
        let (d, l) = scan_chunk(&chunk, &query);
        assert_eq!(d, [0; 5]);
        assert_eq!(fraud_count(&l), 2);
    }
}

fn reference_vote(entries: &[RefEntry], query: &[u8]) -> Option<u32> {
    let mut all: Vec<(u32, u32)> = entries
        .iter()
        .map(|e| (reference_distance(&e.vector, query), if e.label == "fraud" { 1 } else { 0 }))
        .collect();
    all.sort();
    let k = all.len().min(5);
    // Not settled if records at the last distance are left out.
    if k < all.len() && k > 0 && all[k].0 == all[k - 1].0 {
        return None;
    }
    Some(all[..k].iter().map(|e| e.1).sum())
}

#[test]
fn searches_agree_with_a_sort() {
    let mut settled = 0;
    for n in [0usize, 1, 4, 5, 6, 16, 40, 333] {
        let entries: Vec<RefEntry> = (0..n)
            .map(|i| RefEntry {
                vector: bytes(i as u64 + 7, DIMS),
                label: if i % 4 == 1 { "fraud".to_string() } else { "legit".to_string() },
            })
            .collect();
        let image = preprocess(&entries);
        let ds = Dataset::from_mmap(&image);
        for q in 0..20 {
            let dims = bytes(q + 5000, DIMS);
            let fraud = knn_search(&ds, &padded_query(&array(&dims)));
            assert!(fraud <= 5 && fraud as usize <= n);
            if let Some(expected) = reference_vote(&entries, &dims) {
                assert_eq!(fraud, expected);
                settled += 1;
            }
        }
    }
    assert!(settled > 100);
}

#[test]
fn a_query_meets_its_own_record() {
    let entries: Vec<RefEntry> = (0..64)
        .map(|i| RefEntry { vector: bytes(i, DIMS), label: "fraud".to_string() })
        .collect();
    let image = preprocess(&entries);
    let ds = Dataset::from_mmap(&image);
    assert_eq!(knn_search(&ds, &padded_query(&array(&entries[9].vector))), 5);
    let stored = &ds.chunks[0].vectors[..PADDED_DIMS];
    assert_eq!(dist_sq_u8_scalar(&padded_query(&array(&entries[0].vector)), stored), 0);
}
