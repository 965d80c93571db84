use libsais::{
    ALPHABET_SIZE, SAINT_MIN, SUFFIX_GROUP_MARKER, SaSint, alloc_thread_state, buckets_index2,
    buckets_index4, initialize_buckets_end_32s_1k, initialize_buckets_end_32s_2k,
    initialize_buckets_for_lms_suffixes_radix_sort_32s_2k,
    initialize_buckets_for_lms_suffixes_radix_sort_32s_6k,
    initialize_buckets_for_lms_suffixes_radix_sort_8u,
    initialize_buckets_for_partial_sorting_32s_6k, initialize_buckets_for_partial_sorting_8u,
    initialize_buckets_for_radix_and_partial_sorting_32s_4k, initialize_buckets_start_32s_1k,
    initialize_buckets_start_and_end_32s_2k, initialize_buckets_start_and_end_32s_4k,
    initialize_buckets_start_and_end_32s_6k, initialize_buckets_start_and_end_8u,
    radix_sort_lms_suffixes_32s_1k, radix_sort_lms_suffixes_32s_2k,
    radix_sort_lms_suffixes_32s_2k_omp, radix_sort_lms_suffixes_32s_6k,
    radix_sort_lms_suffixes_32s_6k_omp, radix_sort_lms_suffixes_8u,
    radix_sort_lms_suffixes_8u_omp, radix_sort_set_markers_32s_4k,
    radix_sort_set_markers_32s_4k_omp, radix_sort_set_markers_32s_6k,
    radix_sort_set_markers_32s_6k_omp,
};

#[test]
fn initialize_buckets_start_and_end_8u_sets_ranges_and_freq() {
    let mut buckets = vec![0; 8 * ALPHABET_SIZE];
    buckets[buckets_index4(0, 0)] = 1;
    buckets[buckets_index4(1, 1)] = 2;
    buckets[buckets_index4(2, 3)] = 3;
    let mut freq = vec![0; ALPHABET_SIZE];
    let k = initialize_buckets_start_and_end_8u(&mut buckets, Some(&mut freq));
    assert_eq!(k, 3);
    assert_eq!(freq[0], 1);
    assert_eq!(freq[1], 2);
    assert_eq!(freq[2], 3);
    assert_eq!(buckets[6 * ALPHABET_SIZE], 0);
    assert_eq!(buckets[7 * ALPHABET_SIZE], 1);
    assert_eq!(buckets[6 * ALPHABET_SIZE + 1], 1);
    assert_eq!(buckets[7 * ALPHABET_SIZE + 1], 3);
}

#[test]
fn initialize_buckets_start_and_end_32s_6k_sets_prefix_ranges() {
    let k = 3;
    let mut buckets = vec![0; 6 * k];
    buckets[buckets_index4(0, 0)] = 1;
    buckets[buckets_index4(0, 1)] = 2;
    buckets[buckets_index4(1, 2)] = 3;
    buckets[buckets_index4(2, 3)] = 4;
    initialize_buckets_start_and_end_32s_6k(k as SaSint, &mut buckets);
    assert_eq!(&buckets[4 * k..5 * k], &[0, 3, 6]);
    assert_eq!(&buckets[5 * k..6 * k], &[3, 6, 10]);
}

#[test]
fn initialize_buckets_start_and_end_32s_4k_sets_prefix_ranges() {
    let k = 3;
    let mut buckets = vec![0; 4 * k];
    buckets[buckets_index2(0, 0)] = 1;
    buckets[buckets_index2(0, 1)] = 2;
    buckets[buckets_index2(1, 0)] = 3;
    buckets[buckets_index2(2, 1)] = 4;
    initialize_buckets_start_and_end_32s_4k(k as SaSint, &mut buckets);
    assert_eq!(&buckets[2 * k..3 * k], &[0, 3, 6]);
    assert_eq!(&buckets[3 * k..4 * k], &[3, 6, 10]);
}

#[test]
fn initialize_buckets_end_32s_2k_rewrites_first_lanes_to_end_positions() {
    let k = 3;
    let mut buckets = vec![1, 2, 3, 4, 5, 6];
    initialize_buckets_end_32s_2k(k as SaSint, &mut buckets);
    assert_eq!(buckets[0], 3);
    assert_eq!(buckets[2], 10);
    assert_eq!(buckets[4], 21);
}

#[test]
fn initialize_buckets_start_and_end_32s_2k_copies_start_positions() {
    let k = 3;
    let mut buckets = vec![3, 2, 10, 4, 21, 6];
    initialize_buckets_start_and_end_32s_2k(k as SaSint, &mut buckets);
    assert_eq!(&buckets[..k], &[3, 10, 21]);
    assert_eq!(&buckets[k..2 * k], &[0, 3, 10]);
}

#[test]
fn initialize_buckets_start_32s_1k_builds_prefix_starts() {
    let mut buckets = vec![1, 2, 3];
    initialize_buckets_start_32s_1k(3, &mut buckets);
    assert_eq!(buckets, vec![0, 1, 3]);
}

#[test]
fn initialize_buckets_end_32s_1k_builds_prefix_ends() {
    let mut buckets = vec![1, 2, 3];
    initialize_buckets_end_32s_1k(3, &mut buckets);
    assert_eq!(buckets, vec![1, 3, 6]);
}

#[test]
fn initialize_buckets_for_lms_suffixes_radix_sort_8u_returns_total_lms_slots() {
    let t = vec![2_u8, 1, 3, 1, 0];
    let mut buckets = vec![0; 6 * ALPHABET_SIZE];
    buckets[buckets_index4(0, 1)] = 1;
    buckets[buckets_index4(1, 3)] = 2;
    let sum = initialize_buckets_for_lms_suffixes_radix_sort_8u(&t, &mut buckets, 4);
    assert!(sum >= 0);
}

#[test]
fn initialize_buckets_for_lms_suffixes_radix_sort_32s_2k_rewrites_two_lane_prefixes() {
    let t = vec![2, 1, 3, 1, 0];
    let mut buckets = vec![0; 2 * 4];
    initialize_buckets_for_lms_suffixes_radix_sort_32s_2k(&t, 4, &mut buckets, 4);
    assert!(buckets.iter().any(|&v| v != 0));
}

#[test]
fn initialize_buckets_for_lms_suffixes_radix_sort_32s_6k_returns_total_lms_slots() {
    let t = vec![2, 1, 3, 1, 0];
    let mut buckets = vec![0; 6 * 4];
    buckets[buckets_index4(0, 1)] = 1;
    buckets[buckets_index4(1, 3)] = 2;
    let sum = initialize_buckets_for_lms_suffixes_radix_sort_32s_6k(&t, 4, &mut buckets, 4);
    assert!(sum >= 0);
}

#[test]
fn initialize_buckets_for_radix_and_partial_sorting_32s_4k_sets_start_end_views() {
    let t = vec![2, 1, 3, 1, 0];
    let k = 4usize;
    let mut buckets = vec![0; 4 * k];
    buckets[buckets_index2(0, 0)] = 1;
    buckets[buckets_index2(0, 1)] = 2;
    buckets[buckets_index2(1, 0)] = 3;
    initialize_buckets_for_radix_and_partial_sorting_32s_4k(&t, k as SaSint, &mut buckets, 4);
    assert_eq!(buckets[2 * k], 0);
    assert!(buckets[3 * k] >= buckets[2 * k]);
}

#[test]
fn radix_sort_lms_suffixes_8u_places_suffixes_by_bucket() {
    let t = vec![1_u8, 0, 1, 0];
    let mut sa = vec![9, 9, 9, 9, 0, 1, 2, 3];
    let mut induction_bucket = vec![0; 2 * ALPHABET_SIZE];
    induction_bucket[buckets_index2(0, 0)] = 2;
    induction_bucket[buckets_index2(1, 0)] = 4;
    radix_sort_lms_suffixes_8u(&t, &mut sa, &mut induction_bucket, 4, 4);
    assert_eq!(&sa[..4], &[1, 3, 0, 2]);
}

#[test]
fn radix_sort_lms_suffixes_8u_omp_wraps_sequential_version() {
    let t = vec![9_u8, 1, 0, 1, 0];
    let mut sa = vec![9, 9, 9, 9, 9, 1, 2, 3, 4];
    let mut buckets = vec![0; 6 * ALPHABET_SIZE];
    buckets[4 * ALPHABET_SIZE + buckets_index2(0, 0)] = 2;
    buckets[4 * ALPHABET_SIZE + buckets_index2(1, 0)] = 4;
    let mut thread_state = alloc_thread_state(2).unwrap();
    radix_sort_lms_suffixes_8u_omp(&t, &mut sa, 9, 5, 0, &mut buckets, 2, &mut thread_state);
    assert_eq!(&sa[..4], &[2, 4, 1, 3]);
}

#[test]
fn radix_sort_lms_suffixes_32s_6k_places_suffixes_by_bucket() {
    let t = vec![1, 0, 1, 0];
    let mut sa = vec![9, 9, 9, 9, 0, 1, 2, 3];
    let mut induction_bucket = vec![2, 4];
    radix_sort_lms_suffixes_32s_6k(&t, &mut sa, &mut induction_bucket, 4, 4);
    assert_eq!(&sa[..4], &[1, 3, 0, 2]);
}

#[test]
fn radix_sort_lms_suffixes_32s_2k_places_suffixes_by_bucket() {
    let t = vec![1, 0, 1, 0];
    let mut sa = vec![9, 9, 9, 9, 0, 1, 2, 3];
    let mut induction_bucket = vec![2, 0, 4, 0];
    radix_sort_lms_suffixes_32s_2k(&t, &mut sa, &mut induction_bucket, 4, 4);
    assert_eq!(&sa[..4], &[1, 3, 0, 2]);
}

#[test]
fn radix_sort_lms_suffixes_32s_6k_omp_wraps_sequential_version() {
    let t = vec![9, 1, 0, 1, 0];
    let mut sa = vec![9, 9, 9, 9, 9, 1, 2, 3, 4];
    let mut induction_bucket = vec![2, 4];
    let mut thread_state = alloc_thread_state(2).unwrap();
    radix_sort_lms_suffixes_32s_6k_omp(&t, &mut sa, 9, 5, &mut induction_bucket, 2, &mut thread_state);
    assert_eq!(&sa[..4], &[2, 4, 1, 3]);
}

#[test]
fn radix_sort_lms_suffixes_32s_2k_omp_wraps_sequential_version() {
    let t = vec![9, 1, 0, 1, 0];
    let mut sa = vec![9, 9, 9, 9, 9, 1, 2, 3, 4];
    let mut induction_bucket = vec![2, 0, 4, 0];
    let mut thread_state = alloc_thread_state(2).unwrap();
    radix_sort_lms_suffixes_32s_2k_omp(&t, &mut sa, 9, 5, &mut induction_bucket, 2, &mut thread_state);
    assert_eq!(&sa[..4], &[2, 4, 1, 3]);
}

#[test]
fn radix_sort_lms_suffixes_32s_1k_collects_lms_suffixes() {
    let t = vec![2, 1, 3, 1, 0];
    let mut sa = vec![0; t.len()];
    let mut buckets = vec![0, 2, 4, 5];
    let m = radix_sort_lms_suffixes_32s_1k(&t, &mut sa, t.len() as SaSint, &mut buckets);
    assert!(m >= 0);
}

#[test]
fn radix_sort_set_markers_32s_6k_marks_target_suffixes() {
    let mut sa = vec![0; 6];
    let induction_bucket = vec![1, 3, 5];
    radix_sort_set_markers_32s_6k(&mut sa, &induction_bucket, 0, 3);
    assert_eq!(sa[1], SAINT_MIN);
    assert_eq!(sa[3], SAINT_MIN);
    assert_eq!(sa[5], SAINT_MIN);
}

#[test]
fn radix_sort_set_markers_32s_4k_marks_target_suffixes() {
    let mut sa = vec![0; 6];
    let induction_bucket = vec![1, 0, 3, 0, 5, 0];
    radix_sort_set_markers_32s_4k(&mut sa, &induction_bucket, 0, 3);
    assert_eq!(sa[1], SUFFIX_GROUP_MARKER);
    assert_eq!(sa[3], SUFFIX_GROUP_MARKER);
    assert_eq!(sa[5], SUFFIX_GROUP_MARKER);
}

#[test]
fn radix_sort_set_markers_32s_6k_omp_wraps_sequential_version() {
    let mut sa = vec![0; 6];
    let induction_bucket = vec![1, 3, 5];
    radix_sort_set_markers_32s_6k_omp(&mut sa, 4, &induction_bucket, 2);
    assert_eq!(sa[1], SAINT_MIN);
    assert_eq!(sa[3], SAINT_MIN);
    assert_eq!(sa[5], SAINT_MIN);
}

#[test]
fn radix_sort_set_markers_32s_4k_omp_wraps_sequential_version() {
    let mut sa = vec![0; 6];
    let induction_bucket = vec![1, 0, 3, 0, 5, 0];
    radix_sort_set_markers_32s_4k_omp(&mut sa, 4, &induction_bucket, 2);
    assert_eq!(sa[1], SUFFIX_GROUP_MARKER);
    assert_eq!(sa[3], SUFFIX_GROUP_MARKER);
    assert_eq!(sa[5], SUFFIX_GROUP_MARKER);
}

#[test]
fn initialize_buckets_for_partial_sorting_8u_sets_start_and_distinct_views() {
    let t = vec![2_u8, 1, 3, 1, 0];
    let mut buckets = vec![0; 6 * ALPHABET_SIZE];
    buckets[buckets_index4(0, 0)] = 1;
    buckets[buckets_index4(0, 2)] = 2;
    initialize_buckets_for_partial_sorting_8u(&t, &mut buckets, 4, 3);
    assert!(buckets[0] >= 4);
    assert!(buckets[1] >= 0);
    assert!(buckets[4 * ALPHABET_SIZE] >= 4);
}

#[test]
fn initialize_buckets_for_partial_sorting_32s_6k_rewrites_bucket_views() {
    let t = vec![2, 1, 3, 1, 0];
    let k = 4usize;
    let mut buckets = vec![0; 6 * k];
    buckets[buckets_index4(0, 0)] = 1;
    buckets[buckets_index4(0, 1)] = 2;
    buckets[buckets_index4(1, 2)] = 3;
    initialize_buckets_for_partial_sorting_32s_6k(&t, k as SaSint, &mut buckets, 4, 3);
    assert!(buckets[0] >= 4);
    assert!(buckets[4 * k] >= 4);
}
