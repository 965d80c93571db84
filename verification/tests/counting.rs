use libsais::{
    ALPHABET_SIZE, SAINT_MIN, FastSint, SaSint, accumulate_counts_s32, accumulate_counts_s32_2,
    accumulate_counts_s32_3, accumulate_counts_s32_4, accumulate_counts_s32_5,
    accumulate_counts_s32_6, accumulate_counts_s32_7, accumulate_counts_s32_8,
    accumulate_counts_s32_9, alloc_thread_state, count_and_gather_compacted_lms_suffixes_32s_2k,
    count_and_gather_compacted_lms_suffixes_32s_2k_nofs_omp,
    count_and_gather_lms_suffixes_32s_2k, count_and_gather_lms_suffixes_32s_2k_nofs_omp,
    count_and_gather_lms_suffixes_32s_4k, count_and_gather_lms_suffixes_32s_4k_nofs_omp,
    count_and_gather_lms_suffixes_8u_omp,
};

#[test]
fn count_and_gather_lms_suffixes_8u_omp_preserves_sequential_wrapper_behavior() {
    let t = vec![2_u8, 1, 3, 1, 0];
    let mut sa = vec![0; t.len()];
    let mut buckets = vec![0; 4 * ALPHABET_SIZE];
    let mut thread_state = alloc_thread_state(2).unwrap();
    let m = count_and_gather_lms_suffixes_8u_omp(
        &t,
        &mut sa,
        t.len() as SaSint,
        &mut buckets,
        2,
        &mut thread_state,
    );
    assert_eq!(m, 1);
    assert_eq!(buckets.iter().sum::<SaSint>(), t.len() as SaSint);
}

#[test]
fn count_and_gather_lms_suffixes_32s_4k_updates_counts_and_suffixes() {
    let t = vec![2, 1, 3, 1, 0];
    let mut sa = vec![0; t.len()];
    let mut buckets = vec![0; 4 * 4];
    let m = count_and_gather_lms_suffixes_32s_4k(&t, &mut sa, t.len() as SaSint, 4, &mut buckets, 0, t.len() as FastSint);
    assert!(m >= 0);
    assert_eq!(buckets.iter().sum::<SaSint>(), t.len() as SaSint);
}

#[test]
fn count_and_gather_lms_suffixes_32s_2k_updates_counts_and_suffixes() {
    let t = vec![2, 1, 3, 1, 0];
    let mut sa = vec![0; t.len()];
    let mut buckets = vec![0; 2 * 4];
    let m = count_and_gather_lms_suffixes_32s_2k(&t, &mut sa, t.len() as SaSint, 4, &mut buckets, 0, t.len() as FastSint);
    assert!(m >= 0);
    assert_eq!(buckets.iter().sum::<SaSint>(), t.len() as SaSint);
}

#[test]
fn count_and_gather_compacted_lms_suffixes_32s_2k_updates_counts_and_suffixes() {
    let t = vec![2, SAINT_MIN | 1, 3, 1, 0];
    let mut sa = vec![0; t.len()];
    let mut buckets = vec![0; 2 * 4];
    let m = count_and_gather_compacted_lms_suffixes_32s_2k(
        &t,
        &mut sa,
        t.len() as SaSint,
        4,
        &mut buckets,
        0,
        t.len() as FastSint,
    );
    assert!(m >= 0);
    assert_eq!(buckets.iter().sum::<SaSint>(), t.len() as SaSint);
}

#[test]
fn count_and_gather_lms_suffixes_32s_4k_nofs_omp_wraps_sequential_version() {
    let t = vec![2, 1, 3, 1, 0];
    let mut sa = vec![0; t.len()];
    let mut buckets = vec![0; 4 * 4];
    let m = count_and_gather_lms_suffixes_32s_4k_nofs_omp(&t, &mut sa, t.len() as SaSint, 4, &mut buckets, 2);
    assert!(m >= 0);
    assert_eq!(buckets.iter().sum::<SaSint>(), t.len() as SaSint);
}

#[test]
fn count_and_gather_lms_suffixes_32s_2k_nofs_omp_wraps_sequential_version() {
    let t = vec![2, 1, 3, 1, 0];
    let mut sa = vec![0; t.len()];
    let mut buckets = vec![0; 2 * 4];
    let m = count_and_gather_lms_suffixes_32s_2k_nofs_omp(&t, &mut sa, t.len() as SaSint, 4, &mut buckets, 2);
    assert!(m >= 0);
    assert_eq!(buckets.iter().sum::<SaSint>(), t.len() as SaSint);
}

#[test]
fn count_and_gather_compacted_lms_suffixes_32s_2k_nofs_omp_wraps_sequential_version() {
    let t = vec![2, SAINT_MIN | 1, 3, 1, 0];
    let mut sa = vec![0; t.len()];
    let mut buckets = vec![0; 2 * 4];
    let m = count_and_gather_compacted_lms_suffixes_32s_2k_nofs_omp(
        &t,
        &mut sa,
        t.len() as SaSint,
        4,
        &mut buckets,
        2,
    );
    assert!(m >= 0);
    assert_eq!(buckets.iter().sum::<SaSint>(), t.len() as SaSint);
}

#[test]
fn accumulate_counts_helpers_match_prefix_bucket_addition() {
    let mut bucket00 = vec![4, 5, 6];
    let bucket01 = vec![1, 2, 3];
    let bucket02 = vec![7, 8, 9];
    let bucket03 = vec![10, 11, 12];
    let bucket04 = vec![13, 14, 15];
    let bucket05 = vec![16, 17, 18];
    let bucket06 = vec![19, 20, 21];
    let bucket07 = vec![22, 23, 24];
    let bucket08 = vec![25, 26, 27];

    accumulate_counts_s32_2(&mut bucket00, &bucket01);
    assert_eq!(bucket00, vec![5, 7, 9]);

    accumulate_counts_s32_3(&mut bucket00, &bucket01, &bucket02);
    assert_eq!(bucket00, vec![13, 17, 21]);

    accumulate_counts_s32_4(&mut bucket00, &bucket01, &bucket02, &bucket03);
    assert_eq!(bucket00, vec![31, 38, 45]);

    accumulate_counts_s32_5(&mut bucket00, &bucket01, &bucket02, &bucket03, &bucket04);
    assert_eq!(bucket00, vec![62, 73, 84]);

    accumulate_counts_s32_6(
        &mut bucket00,
        &bucket01,
        &bucket02,
        &bucket03,
        &bucket04,
        &bucket05,
    );
    assert_eq!(bucket00, vec![109, 125, 141]);

    accumulate_counts_s32_7(
        &mut bucket00,
        &bucket01,
        &bucket02,
        &bucket03,
        &bucket04,
        &bucket05,
        &bucket06,
    );
    assert_eq!(bucket00, vec![175, 197, 219]);

    accumulate_counts_s32_8(
        &mut bucket00,
        &bucket01,
        &bucket02,
        &bucket03,
        &bucket04,
        &bucket05,
        &bucket06,
        &bucket07,
    );
    assert_eq!(bucket00, vec![263, 292, 321]);

    accumulate_counts_s32_9(
        &mut bucket00,
        &bucket01,
        &bucket02,
        &bucket03,
        &bucket04,
        &bucket05,
        &bucket06,
        &bucket07,
        &bucket08,
    );
    assert_eq!(bucket00, vec![376, 413, 450]);
}

#[test]
fn accumulate_counts_s32_matches_c_dispatch_for_small_bucket_counts() {
    let mut buckets = vec![1, 2, 3, 4, 5, 6, 7, 8];
    accumulate_counts_s32(&mut buckets, 2, 2, 4);
    assert_eq!(buckets, vec![1, 2, 3, 4, 5, 6, 16, 20]);
}

#[test]
fn accumulate_counts_s32_matches_c_dispatch_for_nine_buckets() {
    let mut buckets = vec![1, 10, 2, 20, 3, 30, 4, 40, 5, 50, 6, 60, 7, 70, 8, 80, 9, 90];
    accumulate_counts_s32(&mut buckets, 2, 2, 9);
    assert_eq!(
        buckets,
        vec![1, 10, 2, 20, 3, 30, 4, 40, 5, 50, 6, 60, 7, 70, 8, 80, 45, 450]
    );
}

#[test]
fn accumulate_counts_s32_matches_c_chunked_nine_then_tail_behavior() {
    let mut buckets = (1..=11).collect::<Vec<SaSint>>();
    accumulate_counts_s32(&mut buckets, 1, 1, 11);
    assert_eq!(buckets, vec![1, 2, 3, 4, 5, 6, 7, 8, 45, 10, 66]);
}
