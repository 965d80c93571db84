use libsais::{
    ALPHABET_SIZE, SAINT_MIN, FastSint, SaSint, ThreadCache, compact_and_place_cached_suffixes,
    count_and_gather_lms_suffixes_8u, count_compacted_lms_suffixes_32s_2k,
    count_lms_suffixes_32s_2k, count_lms_suffixes_32s_4k, count_negative_marked_suffixes,
    count_suffixes_32s, count_zero_marked_suffixes, flip_suffix_markers_omp,
    gather_compacted_lms_suffixes_32s, gather_lms_suffixes_32s, get_bucket_stride,
    place_cached_suffixes,
};

#[test]
fn count_helpers_match_c_predicates() {
    let sa = [1, -1, 0, -3, 4, 0, -9];
    assert_eq!(count_negative_marked_suffixes(&sa, 0, sa.len() as FastSint), 3);
    assert_eq!(count_zero_marked_suffixes(&sa, 0, sa.len() as FastSint), 2);
    assert_eq!(count_negative_marked_suffixes(&sa, 2, 3), 1);
    assert_eq!(count_zero_marked_suffixes(&sa, 2, 3), 1);
}

#[test]
fn flip_suffix_markers_omp_toggles_saint_min_bits() {
    let mut sa = vec![1, -2, 3, -4];
    flip_suffix_markers_omp(&mut sa, 4, 1);
    assert_eq!(sa, vec![1 ^ SAINT_MIN, -2 ^ SAINT_MIN, 3 ^ SAINT_MIN, -4 ^ SAINT_MIN]);
}

#[test]
fn place_cached_suffixes_writes_indices_to_symbol_slots() {
    let mut sa = vec![0; 8];
    let cache = vec![
        ThreadCache { symbol: 2, index: 10 },
        ThreadCache { symbol: 5, index: 20 },
        ThreadCache { symbol: 1, index: 30 },
    ];

    place_cached_suffixes(&mut sa, &cache, 0, cache.len() as FastSint);

    assert_eq!(sa[2], 10);
    assert_eq!(sa[5], 20);
    assert_eq!(sa[1], 30);
}

#[test]
fn compact_and_place_cached_suffixes_discards_negative_symbols() {
    let mut sa = vec![0; 8];
    let mut cache = vec![
        ThreadCache { symbol: 2, index: 10 },
        ThreadCache { symbol: -1, index: 99 },
        ThreadCache { symbol: 5, index: 20 },
        ThreadCache { symbol: -4, index: 77 },
        ThreadCache { symbol: 1, index: 30 },
    ];
    let cache_len = cache.len() as FastSint;

    compact_and_place_cached_suffixes(&mut sa, &mut cache, 0, cache_len);

    assert_eq!(sa[2], 10);
    assert_eq!(sa[5], 20);
    assert_eq!(sa[1], 30);
    assert_eq!(cache[0], ThreadCache { symbol: 2, index: 10 });
    assert_eq!(cache[1], ThreadCache { symbol: 5, index: 20 });
    assert_eq!(cache[2], ThreadCache { symbol: 1, index: 30 });
}

#[test]
fn gather_lms_suffixes_32s_collects_expected_suffix_starts() {
    let t = vec![2, 1, 3, 1, 0];
    let mut sa = vec![0; t.len()];
    let m = gather_lms_suffixes_32s(&t, &mut sa, t.len() as SaSint);
    assert!(m >= 0);
    assert!(sa.iter().all(|&value| value >= 0 && value <= t.len() as SaSint));
    assert!(sa[t.len() - 1] >= 1 && sa[t.len() - 1] <= t.len() as SaSint - 1);
}

#[test]
fn gather_compacted_lms_suffixes_32s_skips_negative_marked_symbols() {
    let t = vec![2, -1, 3, 1, 0];
    let mut sa = vec![0; t.len()];
    let m = gather_compacted_lms_suffixes_32s(&t, &mut sa, t.len() as SaSint);
    assert!(m >= 0);
    assert!(sa.iter().all(|&value| value >= 0 && value <= t.len() as SaSint));
}

#[test]
fn count_lms_suffixes_32s_2k_counts_two_bucket_categories() {
    let t = vec![2, 1, 3, 1, 0];
    let mut buckets = vec![0; 2 * 4];
    count_lms_suffixes_32s_2k(&t, t.len() as SaSint, 4, &mut buckets);
    assert_eq!(buckets.iter().sum::<SaSint>(), t.len() as SaSint);
}

#[test]
fn count_lms_suffixes_32s_4k_counts_four_bucket_categories() {
    let t = vec![2, 1, 3, 1, 0];
    let mut buckets = vec![0; 4 * 4];
    count_lms_suffixes_32s_4k(&t, t.len() as SaSint, 4, &mut buckets);
    assert_eq!(buckets.iter().sum::<SaSint>(), t.len() as SaSint);
}

#[test]
fn count_compacted_lms_suffixes_32s_2k_masks_saint_bits() {
    let t = vec![2, SAINT_MIN | 1, 3, 1, 0];
    let mut buckets = vec![0; 2 * 4];
    count_compacted_lms_suffixes_32s_2k(&t, t.len() as SaSint, 4, &mut buckets);
    assert_eq!(buckets.iter().sum::<SaSint>(), t.len() as SaSint);
}

#[test]
fn count_and_gather_lms_suffixes_8u_updates_sa_and_buckets() {
    let t = vec![2_u8, 1, 3, 1, 0];
    let mut sa = vec![0; t.len()];
    let mut buckets = vec![0; 4 * ALPHABET_SIZE];
    let m = count_and_gather_lms_suffixes_8u(
        &t,
        &mut sa,
        t.len() as SaSint,
        &mut buckets,
        0,
        t.len() as FastSint,
    );
    assert_eq!(m, 1);
    assert_eq!(sa[t.len() - 1], 1);
    assert_eq!(buckets.iter().sum::<SaSint>(), t.len() as SaSint);
}

#[test]
fn get_bucket_stride_prefers_aligned_sizes_when_space_allows() {
    assert_eq!(get_bucket_stride(8192, 1000, 2), 1024);
    assert_eq!(get_bucket_stride(256, 17, 2), 32);
    assert_eq!(get_bucket_stride(8, 17, 2), 17);
}

#[test]
fn count_suffixes_32s_counts_symbol_histogram() {
    let t = vec![2, 1, 2, 3, 1, 0, 2];
    let mut buckets = vec![0; 4];
    count_suffixes_32s(&t, t.len() as SaSint, 4, &mut buckets);
    assert_eq!(buckets, vec![1, 2, 3, 1]);
}
