use libsais::{
    ALPHABET_SIZE, LIBSAIS_FLAGS_NONE, LIBSAIS_PER_THREAD_CACHE_SIZE, SAINT_MAX, SAINT_MIN,
    FastSint, SaSint, ThreadCache, alloc_thread_state, buckets_index2, clear_lms_suffixes_omp,
    final_bwt_aux_scan_left_to_right_8u, final_bwt_scan_left_to_right_8u,
    final_bwt_scan_left_to_right_8u_block_prepare, final_bwt_scan_right_to_left_8u,
    final_sorting_scan_left_to_right_32s, final_sorting_scan_left_to_right_32s_block_omp,
    final_sorting_scan_left_to_right_8u, final_sorting_scan_left_to_right_8u_omp,
    final_sorting_scan_right_to_left_32s_block_omp, final_sorting_scan_right_to_left_8u_omp,
    induce_final_order_8u_omp, place_lms_suffixes_interval_32s_1k,
    place_lms_suffixes_interval_32s_2k, place_lms_suffixes_interval_32s_4k,
};

#[test]
fn place_lms_suffixes_interval_32s_4k_moves_suffixes_into_bucket_intervals() {
    let mut sa = vec![10, 11, 12, 13, 14];
    let k = 3usize;
    let mut buckets = vec![0; 4 * k];
    buckets[buckets_index2(0, 1)] = 0;
    buckets[buckets_index2(1, 1)] = 2;
    buckets[buckets_index2(2, 1)] = 3;
    buckets[3 * k] = 2;
    buckets[3 * k + 1] = 5;

    place_lms_suffixes_interval_32s_4k(&mut sa, 5, k as SaSint, 5, &buckets);

    assert_eq!(sa, vec![0, 0, 0, 0, 14]);
}

#[test]
fn place_lms_suffixes_interval_32s_2k_moves_suffixes_into_bucket_intervals() {
    let mut sa = vec![10, 11, 12, 13, 14];
    let mut buckets = vec![0; 2 * 3];
    buckets[buckets_index2(0, 0)] = 2;
    buckets[buckets_index2(0, 1)] = 0;
    buckets[buckets_index2(1, 0)] = 5;
    buckets[buckets_index2(1, 1)] = 2;
    buckets[buckets_index2(2, 0)] = 5;
    buckets[buckets_index2(2, 1)] = 3;

    place_lms_suffixes_interval_32s_2k(&mut sa, 5, 3, 5, &buckets);

    assert_eq!(sa, vec![0, 0, 0, 0, 14]);
}

#[test]
fn place_lms_suffixes_interval_32s_1k_places_suffixes_by_symbol_bucket() {
    let t = vec![0, 1, 1, 2, 2];
    let mut sa = vec![1, 2, 3, 4, 99];
    let buckets = vec![0, 2, 5];

    place_lms_suffixes_interval_32s_1k(&t, &mut sa, 3, 4, &buckets);

    assert_eq!(sa, vec![1, 2, 0, 3, 4]);
}

#[test]
fn final_bwt_scan_left_to_right_8u_rewrites_sa_and_induces_suffixes() {
    let t = vec![0_u8, 1, 2, 1, 0];
    let mut sa = vec![1, 0, 0];
    let mut induction_bucket = vec![0, 1, 3];

    final_bwt_scan_left_to_right_8u(&t, &mut sa, &mut induction_bucket, 0, 1);

    assert_eq!(sa[0], 0);
    assert_eq!(induction_bucket[0], 1);
}

#[test]
fn final_bwt_aux_scan_left_to_right_8u_updates_sampling_array() {
    let t = vec![0_u8, 1, 2, 1, 0];
    let mut sa = vec![1, 0, 0];
    let mut induction_bucket = vec![0, 1, 3];
    let mut i_out = vec![0; 2];

    final_bwt_aux_scan_left_to_right_8u(&t, &mut sa, 0, &mut i_out, &mut induction_bucket, 0, 1);

    assert_eq!(i_out[0], 1);
}

#[test]
fn final_sorting_scan_left_to_right_8u_clears_marker_and_places_suffix() {
    let t = vec![0_u8, 1, 2, 1, 0];
    let mut sa = vec![1, 0, 0];
    let mut induction_bucket = vec![0, 1, 3];

    final_sorting_scan_left_to_right_8u(&t, &mut sa, &mut induction_bucket, 0, 1);

    assert_eq!(sa[0], 0);
    assert_eq!(induction_bucket[0], 1);
}

#[test]
fn final_sorting_scan_left_to_right_32s_clears_marker_and_places_suffix() {
    let t = vec![0, 1, 2, 1, 0];
    let mut sa = vec![1, 0, 0];
    let mut induction_bucket = vec![0, 1, 3];

    final_sorting_scan_left_to_right_32s(&t, &mut sa, &mut induction_bucket, 0, 1);

    assert_eq!(sa[0], 0);
    assert_eq!(induction_bucket[0], 1);
}

#[test]
fn final_bwt_scan_left_to_right_8u_block_prepare_records_cache_and_counts() {
    let t = vec![0_u8, 1, 2, 1, 0];
    let mut sa = vec![1, 2, 0];
    let mut buckets = vec![99; ALPHABET_SIZE];
    let mut cache = vec![ThreadCache::default(); 4];

    let count =
        final_bwt_scan_left_to_right_8u_block_prepare(&t, &mut sa, ALPHABET_SIZE as SaSint, &mut buckets, &mut cache, 0, 2);

    assert_eq!(count, 2);
    assert_eq!(sa[0] & SAINT_MAX, 0);
    assert_eq!(sa[1], 1 | SAINT_MIN);
    assert_eq!(buckets[0], 1);
    assert_eq!(buckets[1], 1);
    assert_eq!(cache[0].symbol, 0);
    assert_eq!(cache[0].index & SAINT_MAX, 0);
    assert_eq!(cache[1].symbol, 1);
    assert_eq!(cache[1].index & SAINT_MAX, 1);
}

#[test]
fn final_sorting_scan_left_to_right_32s_block_omp_places_cached_suffixes() {
    let t = vec![0, 1, 2, 1, 0];
    let mut sa = vec![1, 2, 0, 0];
    let mut induction_bucket = vec![0, 1, 3];
    let mut cache = vec![ThreadCache::default(); LIBSAIS_PER_THREAD_CACHE_SIZE];

    final_sorting_scan_left_to_right_32s_block_omp(&t, &mut sa, &mut induction_bucket, &mut cache, 0, 2, 2);

    assert_eq!(sa[0] & SAINT_MAX, 0);
    assert_eq!(sa[1] & SAINT_MAX, 1);
    assert_eq!(induction_bucket[0], 1);
    assert_eq!(induction_bucket[1], 2);
}

#[test]
fn final_sorting_scan_left_to_right_8u_omp_wraps_sequential_behavior() {
    let t = vec![0_u8, 1, 2, 1, 0];
    let mut sa = vec![0; t.len()];
    let mut induction_bucket = vec![0, 1, 3];
    let mut expected_sa = sa.clone();
    let mut expected_bucket = induction_bucket.clone();

    final_sorting_scan_left_to_right_8u_omp(
        &t,
        &mut expected_sa,
        t.len() as FastSint,
        ALPHABET_SIZE as SaSint,
        &mut expected_bucket,
        1,
        &mut [],
    );

    let mut thread_state = alloc_thread_state(2).unwrap();

    final_sorting_scan_left_to_right_8u_omp(
        &t,
        &mut sa,
        t.len() as FastSint,
        ALPHABET_SIZE as SaSint,
        &mut induction_bucket,
        2,
        &mut thread_state,
    );

    assert_eq!(sa, expected_sa);
    assert_eq!(induction_bucket, expected_bucket);
}

#[test]
fn final_bwt_scan_right_to_left_8u_returns_zero_index_and_induces_suffixes() {
    let t = vec![0_u8, 1, 2, 1, 0];
    let mut sa = vec![0, 2, 0];
    let mut induction_bucket = vec![1, 2, 3];

    let index = final_bwt_scan_right_to_left_8u(&t, &mut sa, &mut induction_bucket, 0, 2);

    assert_eq!(index, 0);
    assert_eq!(sa[1], 1);
    assert_eq!(induction_bucket[1], 1);
}

#[test]
fn final_sorting_scan_right_to_left_32s_block_omp_runs_block_pipeline() {
    let t = vec![0, 1, 2, 1, 0];
    let mut sa = vec![0, 2, 0, 0];
    let mut induction_bucket = vec![1, 2, 3];
    let mut cache = vec![ThreadCache::default(); LIBSAIS_PER_THREAD_CACHE_SIZE];
    final_sorting_scan_right_to_left_32s_block_omp(&t, &mut sa, &mut induction_bucket, &mut cache, 0, 2, 2);

    assert_eq!(induction_bucket[1], 1);
    assert_eq!(sa[1] & SAINT_MAX, 2);
}

#[test]
fn final_sorting_scan_right_to_left_8u_omp_matches_sequential_path() {
    let t = vec![0_u8, 1, 2, 1, 0];
    let mut sa = vec![0, 2, 0, 0];
    let mut induction_bucket = vec![1, 2, 3];
    let mut expected_sa = sa.clone();
    let mut expected_bucket = induction_bucket.clone();

    final_sorting_scan_right_to_left_8u_omp(
        &t,
        &mut expected_sa,
        0,
        2,
        ALPHABET_SIZE as SaSint,
        &mut expected_bucket,
        1,
        &mut [],
    );

    let mut thread_state = alloc_thread_state(2).unwrap();
    final_sorting_scan_right_to_left_8u_omp(
        &t,
        &mut sa,
        0,
        2,
        ALPHABET_SIZE as SaSint,
        &mut induction_bucket,
        2,
        &mut thread_state,
    );

    assert_eq!(sa, expected_sa);
    assert_eq!(induction_bucket, expected_bucket);
}

#[test]
fn clear_lms_suffixes_omp_zeroes_requested_bucket_ranges() {
    let mut sa = vec![5, 4, 3, 2, 1, 9];
    let n = sa.len() as SaSint;
    let bucket_start = vec![1, 4, 5];
    let bucket_end = vec![3, 5, 5];

    clear_lms_suffixes_omp(&mut sa, n, 3, &bucket_start, &bucket_end, 2);

    assert_eq!(sa, vec![5, 0, 0, 2, 0, 9]);
}

#[test]
fn induce_final_order_8u_omp_non_bwt_matches_direct_final_scans() {
    let t = vec![0_u8, 1, 2, 1, 0];
    let mut sa = vec![0, 2, 0, 0, 0];
    let mut buckets = vec![0; 8 * ALPHABET_SIZE];
    buckets[6 * ALPHABET_SIZE..6 * ALPHABET_SIZE + 3].copy_from_slice(&[0, 1, 3]);
    buckets[7 * ALPHABET_SIZE..7 * ALPHABET_SIZE + 3].copy_from_slice(&[2, 4, 5]);

    let mut expected_sa = sa.clone();
    let mut expected_left = vec![0, 1, 3];
    let mut expected_right = vec![2, 4, 5];
    final_sorting_scan_left_to_right_8u_omp(&t, &mut expected_sa, t.len() as FastSint, ALPHABET_SIZE as SaSint, &mut expected_left, 1, &mut []);
    final_sorting_scan_right_to_left_8u_omp(&t, &mut expected_sa, 0, t.len() as FastSint, ALPHABET_SIZE as SaSint, &mut expected_right, 1, &mut []);

    let mut thread_state = alloc_thread_state(2).unwrap();
    let result = induce_final_order_8u_omp(
        &t,
        &mut sa,
        t.len() as SaSint,
        ALPHABET_SIZE as SaSint,
        LIBSAIS_FLAGS_NONE,
        0,
        None,
        &mut buckets,
        2,
        &mut thread_state,
    );

    assert_eq!(result, 0);
    assert_eq!(sa, expected_sa);
    assert_eq!(&buckets[6 * ALPHABET_SIZE..6 * ALPHABET_SIZE + 3], expected_left.as_slice());
    assert_eq!(&buckets[7 * ALPHABET_SIZE..7 * ALPHABET_SIZE + 3], expected_right.as_slice());
}
