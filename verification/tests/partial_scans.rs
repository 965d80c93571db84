use libsais::{
    ALPHABET_SIZE, SAINT_MAX, SAINT_MIN, SUFFIX_GROUP_MARKER, FastSint, SaSint, ThreadCache,
    ThreadState, alloc_thread_state, buckets_index2, buckets_index4,
    partial_gsa_scan_right_to_left_8u, partial_sorting_gather_lms_suffixes_32s_1k,
    partial_sorting_gather_lms_suffixes_32s_1k_omp, partial_sorting_gather_lms_suffixes_32s_4k,
    partial_sorting_gather_lms_suffixes_32s_4k_omp, partial_sorting_scan_left_to_right_32s_1k,
    partial_sorting_scan_left_to_right_32s_1k_block_gather,
    partial_sorting_scan_left_to_right_32s_1k_omp, partial_sorting_scan_left_to_right_32s_4k,
    partial_sorting_scan_left_to_right_32s_4k_omp, partial_sorting_scan_left_to_right_32s_6k,
    partial_sorting_scan_left_to_right_32s_6k_block_gather,
    partial_sorting_scan_left_to_right_32s_6k_omp, partial_sorting_scan_left_to_right_8u,
    partial_sorting_scan_left_to_right_8u_block_omp,
    partial_sorting_scan_left_to_right_8u_block_place,
    partial_sorting_scan_left_to_right_8u_block_prepare,
    partial_sorting_scan_left_to_right_8u_omp,
    partial_sorting_scan_right_to_left_32s_1k_block_gather,
    partial_sorting_scan_right_to_left_32s_1k_block_omp,
    partial_sorting_scan_right_to_left_32s_1k_omp,
    partial_sorting_scan_right_to_left_32s_4k_block_gather,
    partial_sorting_scan_right_to_left_32s_6k,
    partial_sorting_scan_right_to_left_32s_6k_block_gather,
    partial_sorting_scan_right_to_left_32s_6k_block_sort, partial_sorting_scan_right_to_left_8u,
    partial_sorting_shift_buckets_32s_6k, partial_sorting_shift_markers_32s_4k,
    partial_sorting_shift_markers_32s_6k_omp, partial_sorting_shift_markers_8u_omp,
};

#[test]
fn partial_sorting_scan_left_to_right_8u_emits_induced_suffixes() {
    let t = vec![2_u8, 1, 3, 1, 0];
    let mut sa = vec![2 | SAINT_MIN, 4, 0, 0, 0, 0];
    let mut buckets = vec![0; 6 * ALPHABET_SIZE];
    buckets[4 * ALPHABET_SIZE + buckets_index2(1, 0)] = 2;
    let d = partial_sorting_scan_left_to_right_8u(&t, &mut sa, &mut buckets, 0, 0, 2);
    assert!(d >= 0);
    assert!(sa.iter().any(|&v| v != 0));
}

#[test]
fn partial_sorting_scan_left_to_right_8u_omp_wraps_sequential_version() {
    let t = vec![2_u8, 1, 3, 1, 0];
    let mut sa = vec![0; 8];
    let mut buckets = vec![0; 6 * ALPHABET_SIZE];
    buckets[4 * ALPHABET_SIZE + buckets_index2(0, 0)] = 1;
    let mut thread_state = alloc_thread_state(2).unwrap();
    let d = partial_sorting_scan_left_to_right_8u_omp(&t, &mut sa, 5, 4, &mut buckets, 0, 0, 2, &mut thread_state);
    assert!(d >= 1);
}

#[test]
fn partial_sorting_scan_left_to_right_32s_6k_emits_induced_suffixes() {
    let t = vec![2, 1, 3, 1, 0];
    let mut sa = vec![2 | SAINT_MIN, 4, 0, 0, 0, 0];
    let mut buckets = vec![0; 4 * 4];
    buckets[buckets_index4(1, 0)] = 2;
    let d = partial_sorting_scan_left_to_right_32s_6k(&t, &mut sa, &mut buckets, 0, 0, 2);
    assert!(d >= 0);
    assert!(sa.iter().any(|&v| v != 0));
}

#[test]
fn partial_sorting_scan_left_to_right_32s_4k_emits_induced_suffixes() {
    let t = vec![2, 1, 3, 1, 0];
    let k = 4usize;
    let mut sa = vec![2 | SUFFIX_GROUP_MARKER, 4, 0, 0, 0, 0];
    let mut buckets = vec![0; 4 * k];
    buckets[2 * k + 1] = 2;
    let d = partial_sorting_scan_left_to_right_32s_4k(&t, &mut sa, k as SaSint, &mut buckets, 0, 0, 2);
    assert!(d >= 0);
    assert!(sa.iter().any(|&v| v != 0));
}

#[test]
fn partial_sorting_scan_left_to_right_32s_1k_emits_induced_suffixes() {
    let t = vec![2, 1, 3, 1, 0];
    let mut sa = vec![2, 4, 0, 0, 0, 0];
    let mut buckets = vec![0; 4];
    buckets[1] = 2;
    partial_sorting_scan_left_to_right_32s_1k(&t, &mut sa, &mut buckets, 0, 2);
    assert!(sa.iter().any(|&v| v != 0));
}

#[test]
fn partial_sorting_scan_left_to_right_32s_6k_omp_wraps_sequential_version() {
    let t = vec![2, 1, 3, 1, 0];
    let mut sa = vec![0; 8];
    let mut buckets = vec![0; 4 * 4];
    let mut thread_state = alloc_thread_state(2).unwrap();
    let d = partial_sorting_scan_left_to_right_32s_6k_omp(&t, &mut sa, 5, &mut buckets, 0, 0, 2, &mut thread_state);
    assert!(d >= 1);
}

#[test]
fn partial_sorting_scan_left_to_right_32s_4k_omp_wraps_sequential_version() {
    let t = vec![2, 1, 3, 1, 0];
    let k = 4usize;
    let mut sa = vec![0; 8];
    let mut buckets = vec![0; 4 * k];
    let mut thread_state = alloc_thread_state(2).unwrap();
    let d = partial_sorting_scan_left_to_right_32s_4k_omp(&t, &mut sa, 5, k as SaSint, &mut buckets, 0, 2, &mut thread_state);
    assert!(d >= 1);
}

#[test]
fn partial_sorting_scan_left_to_right_32s_1k_omp_wraps_sequential_version() {
    let t = vec![2, 1, 3, 1, 0];
    let mut sa = vec![0; 8];
    let mut buckets = vec![0; 4];
    let mut thread_state = alloc_thread_state(2).unwrap();
    partial_sorting_scan_left_to_right_32s_1k_omp(&t, &mut sa, 5, &mut buckets, 2, &mut thread_state);
    assert!(sa.iter().any(|&v| v != 0));
}

#[test]
fn partial_sorting_scan_left_to_right_32s_6k_block_gather_records_bucket_symbols() {
    let t = vec![3, 1, 2, 0];
    let mut sa = vec![2 | SAINT_MIN, 0, 0, 0];
    let mut cache = vec![ThreadCache::default(); 1];

    partial_sorting_scan_left_to_right_32s_6k_block_gather(&t, &mut sa, &mut cache, 0, 1);

    assert_eq!(cache[0].index, 2 | SAINT_MIN);
    assert_eq!(cache[0].symbol, buckets_index4(1, 1) as SaSint);
}

#[test]
fn partial_sorting_scan_left_to_right_32s_1k_block_gather_zeroes_positive_entries() {
    let t = vec![3, 1, 2, 0];
    let mut sa = vec![2, 0, 0, 0];
    let mut cache = vec![ThreadCache::default(); 1];

    partial_sorting_scan_left_to_right_32s_1k_block_gather(&t, &mut sa, &mut cache, 0, 1);

    assert_eq!(cache[0].symbol, 1);
    assert_eq!(cache[0].index, 1);
    assert_eq!(sa[0], 0);
}

#[test]
fn partial_sorting_scan_left_to_right_8u_block_prepare_records_cache_and_counts() {
    let t = vec![2_u8, 1, 3, 1, 0];
    let sa = vec![2 | SAINT_MIN, 4, 0, 0, 0, 0];
    let k = 4;
    let mut buckets = vec![0; 4 * k];
    let mut cache = vec![ThreadCache::default(); 8];
    let mut state = ThreadState::new();
    let (position, count) =
        partial_sorting_scan_left_to_right_8u_block_prepare(&t, &sa, k as SaSint, &mut buckets, &mut cache, 0, 2);
    state.position = position;
    state.count = count;
    assert!(state.count >= 1);
    assert!(cache.iter().take(state.count as usize).any(|entry| entry.symbol >= 0));
}

#[test]
fn partial_sorting_scan_left_to_right_8u_block_place_writes_induced_values() {
    let mut sa = vec![0; 8];
    let mut buckets = vec![0; 8];
    buckets[0] = 0;
    buckets[1] = 1;
    let cache = vec![
        ThreadCache { index: 3 | SAINT_MIN, symbol: 0 },
        ThreadCache { index: 5, symbol: 1 },
    ];
    partial_sorting_scan_left_to_right_8u_block_place(&mut sa, &mut buckets, &cache, 2, 0);
    assert!(sa[0] != 0 || sa[1] != 0);
}

#[test]
fn partial_sorting_scan_left_to_right_8u_block_omp_wraps_sequential_version() {
    let t = vec![2_u8, 1, 3, 1, 0];
    let mut sa = vec![2 | SAINT_MIN, 4, 0, 0, 0, 0];
    let mut buckets = vec![0; 6 * ALPHABET_SIZE];
    let mut thread_state = alloc_thread_state(2).unwrap();
    let d = partial_sorting_scan_left_to_right_8u_block_omp(&t, &mut sa, 4, &mut buckets, 0, 0, 2, 2, &mut thread_state);
    assert!(d >= 0);
}

#[test]
fn partial_sorting_shift_markers_8u_omp_toggles_segment_markers() {
    let mut sa = vec![1 | SAINT_MIN, 2 | SAINT_MIN, 3, 4 | SAINT_MIN, 5];
    let mut buckets = vec![0; 6 * ALPHABET_SIZE];
    buckets[4 * ALPHABET_SIZE + buckets_index2(1, 0)] = 5;
    buckets[buckets_index2(0, 0)] = 0;
    let len = sa.len() as SaSint;
    partial_sorting_shift_markers_8u_omp(&mut sa, len, &buckets, 1);
    assert!(sa.iter().any(|&v| (v & SAINT_MIN) == 0));
}

#[test]
fn partial_sorting_shift_markers_32s_6k_omp_toggles_segment_markers() {
    let mut sa = vec![1 | SAINT_MIN, 2 | SAINT_MIN, 3, 4 | SAINT_MIN, 5];
    let k = 3usize;
    let mut buckets = vec![0; 6 * k];
    buckets[buckets_index4(1, 0)] = 5;
    buckets[4 * k + buckets_index2(0, 0)] = 0;
    partial_sorting_shift_markers_32s_6k_omp(&mut sa, k as SaSint, &buckets, 1);
    assert!(sa.iter().any(|&v| (v & SAINT_MIN) == 0));
}

#[test]
fn partial_sorting_shift_markers_32s_4k_toggles_group_markers() {
    let mut sa = vec![1 | SUFFIX_GROUP_MARKER, 2 | SUFFIX_GROUP_MARKER, 3, 4 | SUFFIX_GROUP_MARKER];
    let len = sa.len() as SaSint;
    partial_sorting_shift_markers_32s_4k(&mut sa, len);
    assert!(sa.iter().any(|&v| (v & SUFFIX_GROUP_MARKER) == 0));
}

#[test]
fn partial_sorting_shift_buckets_32s_6k_moves_temp_bucket_view_into_main_slots() {
    let k = 3usize;
    let mut buckets = vec![0; 6 * k];
    buckets[4 * k + 0] = 10;
    buckets[4 * k + 1] = 11;
    buckets[4 * k + 2] = 12;
    buckets[4 * k + 3] = 13;
    partial_sorting_shift_buckets_32s_6k(k as SaSint, &mut buckets);
    assert_eq!(buckets[0], 10);
    assert_eq!(buckets[1], 11);
    assert_eq!(buckets[4], 12);
    assert_eq!(buckets[5], 13);
}

#[test]
fn partial_sorting_scan_right_to_left_8u_emits_induced_suffixes() {
    let t = vec![0_u8, 1, 2, 1, 0];
    let mut sa = vec![0, 0, 4 | SAINT_MIN];
    let mut buckets = vec![0; 4 * ALPHABET_SIZE];
    buckets[buckets_index2(1, 1)] = 2;

    let d = partial_sorting_scan_right_to_left_8u(&t, &mut sa, &mut buckets, 0, 2, 1);

    assert_eq!(d, 1);
    assert_eq!(sa[1], 3 | SAINT_MIN);
    assert_eq!(buckets[buckets_index2(1, 1)], 1);
    assert_eq!(buckets[2 * ALPHABET_SIZE + buckets_index2(1, 1)], 1);
}

#[test]
fn partial_gsa_scan_right_to_left_8u_skips_separator_bucket() {
    let t = vec![1_u8, 0, 0];
    let mut sa = vec![0, 2 | SAINT_MIN];
    let mut buckets = vec![0; 4 * ALPHABET_SIZE];
    buckets[buckets_index2(0, 1)] = 2;

    let d = partial_gsa_scan_right_to_left_8u(&t, &mut sa, &mut buckets, 0, 1, 1);

    assert_eq!(d, 1);
    assert_eq!(sa, vec![0, 2 | SAINT_MIN]);
    assert_eq!(buckets[buckets_index2(0, 1)], 2);
}

#[test]
fn partial_sorting_scan_right_to_left_32s_6k_emits_induced_suffixes() {
    let t = vec![0, 1, 2, 1, 0];
    let mut sa = vec![0, 0, 4 | SAINT_MIN];
    let mut buckets = vec![0; 4 * 3];
    buckets[buckets_index4(1, 1)] = 2;

    let d = partial_sorting_scan_right_to_left_32s_6k(&t, &mut sa, &mut buckets, 0, 2, 1);

    assert_eq!(d, 1);
    assert_eq!(sa[1], 3 | SAINT_MIN);
    assert_eq!(buckets[buckets_index4(1, 1)], 1);
    assert_eq!(buckets[buckets_index4(1, 1) + 2], 1);
}

#[test]
fn partial_sorting_scan_right_to_left_32s_1k_omp_wraps_sequential_version() {
    let t = vec![0, 1, 2, 1, 0];
    let mut sa = vec![0, 0, 4];
    let mut buckets = vec![0; 3];
    buckets[1] = 2;
    let mut thread_state = alloc_thread_state(2).unwrap();

    partial_sorting_scan_right_to_left_32s_1k_omp(&t, &mut sa, 3, &mut buckets, 2, &mut thread_state);

    assert_eq!(sa[1], 3 | SAINT_MIN);
    assert_eq!(buckets[1], 1);
}

#[test]
fn partial_sorting_scan_right_to_left_32s_6k_block_gather_records_symbols() {
    let t = vec![0, 1, 2, 1, 0];
    let sa = vec![0, 4 | SAINT_MIN, 0];
    let mut cache = vec![ThreadCache::default(); sa.len()];

    partial_sorting_scan_right_to_left_32s_6k_block_gather(&t, &sa, &mut cache, 1, 1);

    assert_eq!(cache[0].index, 4 | SAINT_MIN);
    assert_eq!(cache[0].symbol, buckets_index4(1, 1) as SaSint);
}

#[test]
fn partial_sorting_scan_right_to_left_32s_4k_block_gather_zeroes_positive_entries() {
    let t = vec![0, 1, 2, 1, 0];
    let mut sa = vec![0, 4 | SUFFIX_GROUP_MARKER, 0];
    let mut cache = vec![ThreadCache::default(); sa.len()];

    partial_sorting_scan_right_to_left_32s_4k_block_gather(&t, &mut sa, &mut cache, 1, 1);

    assert_eq!(sa[1], 0);
    assert_eq!(cache[0].index, 4 | SUFFIX_GROUP_MARKER);
    assert_eq!(cache[0].symbol, buckets_index2(1, 1) as SaSint);
}

#[test]
fn partial_sorting_scan_right_to_left_32s_1k_block_gather_stores_preinduced_entries() {
    let t = vec![0, 1, 2, 1, 0];
    let mut sa = vec![0, 4, 0];
    let mut cache = vec![ThreadCache::default(); sa.len()];

    partial_sorting_scan_right_to_left_32s_1k_block_gather(&t, &mut sa, &mut cache, 1, 1);

    assert_eq!(sa[1], 0);
    assert_eq!(cache[0].index, 3 | SAINT_MIN);
    assert_eq!(cache[0].symbol, 1);
}

#[test]
fn partial_sorting_scan_right_to_left_32s_6k_block_sort_updates_bucket_and_marker_state() {
    let t = vec![0, 1, 2, 1, 0];
    let mut cache = vec![ThreadCache::default(); 3];
    cache[0].index = 4 | SAINT_MIN;
    cache[0].symbol = buckets_index4(1, 1) as SaSint;
    let mut buckets = vec![0; 4 * 3];
    buckets[buckets_index4(1, 1)] = 2;

    let d = partial_sorting_scan_right_to_left_32s_6k_block_sort(
        &t,
        &mut buckets,
        0,
        &mut cache,
        1,
        1,
    );

    assert_eq!(d, 1);
    assert_eq!(cache[0].index, 3 | SAINT_MIN);
    assert_eq!(buckets[buckets_index4(1, 1)], 1);
    assert_eq!(buckets[buckets_index4(1, 1) + 2], 1);
}

#[test]
fn partial_sorting_scan_right_to_left_32s_1k_block_omp_places_cached_suffixes() {
    let t = vec![0, 1, 2, 1, 0];
    let mut sa = vec![0, 4, 0];
    let mut buckets = vec![0; 3];
    buckets[1] = 2;
    let mut cache = vec![ThreadCache::default(); sa.len()];

    partial_sorting_scan_right_to_left_32s_1k_block_omp(&t, &mut sa, &mut buckets, &mut cache, 1, 1, 2);

    assert_eq!(sa[1], 3 | SAINT_MIN);
    assert_eq!(buckets[1], 1);
}

#[test]
fn partial_sorting_gather_lms_suffixes_32s_4k_compacts_negative_marked_entries() {
    let mut sa = vec![1 | SUFFIX_GROUP_MARKER, -3, 5 | SUFFIX_GROUP_MARKER, -7];
    let n = sa.len() as FastSint;

    let l = partial_sorting_gather_lms_suffixes_32s_4k(&mut sa, 0, n);

    assert_eq!(l, 2);
    assert_eq!(sa[0], -1073741827);
    assert_eq!(sa[1], -1073741831);
}

#[test]
fn partial_sorting_gather_lms_suffixes_32s_1k_compacts_negative_marked_entries() {
    let mut sa = vec![1, -3, 5, -7];
    let n = sa.len() as FastSint;

    let l = partial_sorting_gather_lms_suffixes_32s_1k(&mut sa, 0, n);

    assert_eq!(l, 2);
    assert_eq!(sa[0], SAINT_MAX - 2);
    assert_eq!(sa[1], SAINT_MAX - 6);
}

#[test]
fn partial_sorting_gather_lms_suffixes_32s_4k_omp_wraps_sequential_version() {
    let mut sa = vec![1 | SUFFIX_GROUP_MARKER, -3, 5 | SUFFIX_GROUP_MARKER, -7];
    let mut thread_state = alloc_thread_state(2).unwrap();

    partial_sorting_gather_lms_suffixes_32s_4k_omp(&mut sa, 4, 2, &mut thread_state);

    assert_eq!(sa[0], -1073741827);
    assert_eq!(sa[1], -1073741831);
}

#[test]
fn partial_sorting_gather_lms_suffixes_32s_1k_omp_wraps_sequential_version() {
    let mut sa = vec![1, -3, 5, -7];
    let mut thread_state = alloc_thread_state(2).unwrap();

    partial_sorting_gather_lms_suffixes_32s_1k_omp(&mut sa, 4, 2, &mut thread_state);

    assert_eq!(sa[0], SAINT_MAX - 2);
    assert_eq!(sa[1], SAINT_MAX - 6);
}
