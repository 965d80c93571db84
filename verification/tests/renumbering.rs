use libsais::{
    SAINT_MIN, alloc_thread_state, clamp_lms_suffixes_length_32s, gather_marked_lms_suffixes,
    mark_distinct_lms_suffixes_32s, reconstruct_lms_suffixes, reconstruct_lms_suffixes_omp,
    renumber_and_gather_lms_suffixes_omp, renumber_and_mark_distinct_lms_suffixes_32s_1k_omp,
    renumber_and_mark_distinct_lms_suffixes_32s_4k_omp, renumber_distinct_lms_suffixes_32s_4k,
    renumber_lms_suffixes_8u, renumber_lms_suffixes_8u_omp,
};

#[test]
fn renumber_lms_suffixes_8u_writes_names_into_second_half() {
    let mut sa = vec![1 | SAINT_MIN, 3, 0, 0];

    let name = renumber_lms_suffixes_8u(&mut sa, 2, 0, 0, 2);

    assert_eq!(name, 1);
    assert_eq!(sa[2], SAINT_MIN);
    assert_eq!(sa[3], SAINT_MIN | 1);
}

#[test]
fn renumber_lms_suffixes_8u_matches_upstream_c_helper() {
    let mut sa = vec![1 | SAINT_MIN, 3, 0, 0];

    let name = renumber_lms_suffixes_8u(&mut sa, 2, 0, 0, 2);

    assert_eq!(name, 1);
    assert_eq!(sa, vec![1 | SAINT_MIN, 3, SAINT_MIN, SAINT_MIN | 1]);
}

#[test]
fn gather_marked_lms_suffixes_moves_negative_marked_entries_to_tail() {
    let mut sa = vec![0, 0, 1 | SAINT_MIN, 3];

    let l = gather_marked_lms_suffixes(&mut sa, 2, 4, 0, 2);

    assert_eq!(l, 3);
    assert_eq!(sa[3], 1);
}

#[test]
fn gather_marked_lms_suffixes_matches_upstream_c_helper() {
    let mut sa = vec![0, 0, 1 | SAINT_MIN, 3];

    let l = gather_marked_lms_suffixes(&mut sa, 2, 4, 0, 2);

    assert_eq!(l, 3);
    assert_eq!(sa, vec![0, 0, 1 | SAINT_MIN, 1]);
}

#[test]
fn renumber_lms_suffixes_8u_omp_wraps_sequential_version() {
    let mut sa = vec![1 | SAINT_MIN, 3, 0, 0];
    let mut thread_state = alloc_thread_state(2).unwrap();

    let name = renumber_lms_suffixes_8u_omp(&mut sa, 2, 2, &mut thread_state);

    assert_eq!(name, 1);
    assert_eq!(sa[2], SAINT_MIN);
}

#[test]
fn renumber_and_gather_lms_suffixes_omp_gathers_when_names_are_not_distinct() {
    let mut sa = vec![1 | SAINT_MIN, 3, 0, 0];
    let mut thread_state = alloc_thread_state(2).unwrap();

    let name = renumber_and_gather_lms_suffixes_omp(&mut sa, 4, 2, 0, 2, &mut thread_state);

    assert_eq!(name, 1);
    assert_eq!(sa[3], 1);
}

#[test]
fn renumber_and_gather_lms_suffixes_omp_matches_upstream_c_helper() {
    let mut sa = vec![1 | SAINT_MIN, 3, 0, 0];
    let mut thread_state = alloc_thread_state(2).unwrap();

    let name = renumber_and_gather_lms_suffixes_omp(&mut sa, 4, 2, 0, 2, &mut thread_state);

    assert_eq!(name, 1);
    assert_eq!(sa, vec![1 | SAINT_MIN, 3, 0, 1]);
}

#[test]
fn renumber_distinct_lms_suffixes_32s_4k_masks_sources_and_writes_second_half() {
    let mut sa = vec![1 | SAINT_MIN, 3 | SAINT_MIN, 0, 0];

    let name = renumber_distinct_lms_suffixes_32s_4k(&mut sa, 2, 1, 0, 2);

    assert_eq!(name, 3);
    assert_eq!(sa[0], 1);
    assert_eq!(sa[1], 3);
    assert_eq!(sa[2], 1);
    assert_eq!(sa[3], 2 | SAINT_MIN);
}

#[test]
fn renumber_distinct_lms_suffixes_32s_4k_matches_upstream_c_helper() {
    let mut sa = vec![1 | SAINT_MIN, 3 | SAINT_MIN, 0, 0];

    let name = renumber_distinct_lms_suffixes_32s_4k(&mut sa, 2, 1, 0, 2);

    assert_eq!(name, 3);
    assert_eq!(sa, vec![1, 3, 1, 2 | SAINT_MIN]);
}

#[test]
fn mark_distinct_lms_suffixes_32s_propagates_previous_nonzero_marker() {
    let mut sa = vec![0, 0, SAINT_MIN | 5, 0, SAINT_MIN | 7];

    mark_distinct_lms_suffixes_32s(&mut sa, 2, 0, 3);

    assert_eq!(sa[2], 5);
    assert_eq!(sa[3], 0);
    assert_eq!(sa[4], SAINT_MIN | 7);
}

#[test]
fn clamp_lms_suffixes_length_32s_keeps_only_negative_lengths() {
    let mut sa = vec![0, 0, SAINT_MIN | 5, 7, SAINT_MIN | 3];

    clamp_lms_suffixes_length_32s(&mut sa, 2, 0, 3);

    assert_eq!(sa[2], 5);
    assert_eq!(sa[3], 0);
    assert_eq!(sa[4], 3);
}

#[test]
fn renumber_and_mark_distinct_lms_suffixes_32s_4k_omp_marks_second_half_when_names_repeat() {
    let mut sa = vec![1 | SAINT_MIN, 3 | SAINT_MIN, 0, 0];
    let mut thread_state = alloc_thread_state(2).unwrap();

    let name = renumber_and_mark_distinct_lms_suffixes_32s_4k_omp(&mut sa, 4, 2, 2, &mut thread_state);

    assert_eq!(name, 2);
    assert_eq!(sa[2], 1);
    assert_eq!(sa[3], SAINT_MIN | 2);
}

#[test]
fn renumber_and_mark_distinct_lms_suffixes_32s_4k_omp_matches_upstream_c_helper() {
    let mut sa = vec![1 | SAINT_MIN, 3 | SAINT_MIN, 0, 0];
    let mut thread_state = alloc_thread_state(2).unwrap();

    let name = renumber_and_mark_distinct_lms_suffixes_32s_4k_omp(&mut sa, 4, 2, 2, &mut thread_state);

    assert_eq!(name, 2);
    assert_eq!(sa, vec![1, 3, 1, SAINT_MIN | 2]);
}

#[test]
fn reconstruct_lms_suffixes_maps_indices_from_tail_interval() {
    let mut sa = vec![0, 1, 2, 7, 11, 13];

    reconstruct_lms_suffixes(&mut sa, 6, 3, 0, 3);

    assert_eq!(&sa[..3], &[7, 11, 13]);
}

#[test]
fn reconstruct_lms_suffixes_omp_wraps_sequential_version() {
    let mut sa = vec![0, 1, 2, 7, 11, 13];

    reconstruct_lms_suffixes_omp(&mut sa, 6, 3, 2);

    assert_eq!(&sa[..3], &[7, 11, 13]);
}

#[test]
fn renumber_and_mark_distinct_lms_suffixes_32s_1k_omp_handles_single_lms_suffix() {
    let t = vec![2, 1, 0];
    let mut sa = vec![0; t.len()];

    let name = renumber_and_mark_distinct_lms_suffixes_32s_1k_omp(&t, &mut sa, 3, 1, 1);

    assert_eq!(name, 1);
    assert_eq!(sa[1], SAINT_MIN | 1);
}
