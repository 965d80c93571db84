use libsais::{
    SAINT_MAX, SAINT_MIN, alloc_thread_state, bwt_copy_8u, bwt_copy_8u_omp,
    compact_lms_suffixes_32s_omp, compact_unique_and_nonunique_lms_suffixes_32s,
    merge_compacted_lms_suffixes_32s_omp, merge_nonunique_lms_suffixes_32s,
    merge_unique_lms_suffixes_32s, renumber_unique_and_nonunique_lms_suffixes_32s,
    renumber_unique_and_nonunique_lms_suffixes_32s_omp,
};

#[test]
fn renumber_unique_and_nonunique_lms_suffixes_32s_marks_new_unique_names() {
    let mut t = vec![0, 0, 0, 0];
    let mut sa = vec![0, 2, -1, 5];

    let f = renumber_unique_and_nonunique_lms_suffixes_32s(&mut t, &mut sa, 2, 0, 0, 2);

    assert_eq!(f, 1);
    assert_eq!(t[0], SAINT_MIN);
    assert_eq!(sa[2], SAINT_MIN);
    assert_eq!(sa[3], 4);
}

#[test]
fn renumber_unique_and_nonunique_lms_suffixes_32s_matches_upstream_c_helper() {
    let mut t = vec![0, 0, 0, 0];
    let mut sa = vec![0, 2, -1, 5];

    let f = renumber_unique_and_nonunique_lms_suffixes_32s(&mut t, &mut sa, 2, 0, 0, 2);

    assert_eq!(f, 1);
    assert_eq!(t, vec![SAINT_MIN, 0, 0, 0]);
    assert_eq!(sa, vec![0, 2, SAINT_MIN, 4]);
}

#[test]
fn renumber_unique_and_nonunique_lms_suffixes_32s_omp_matches_upstream_c_helper() {
    let mut t = vec![0, 0, 0, 0];
    let mut sa = vec![0, 2, -1, 5];
    let mut thread_state = alloc_thread_state(1).unwrap();

    let f = renumber_unique_and_nonunique_lms_suffixes_32s_omp(&mut t, &mut sa, 2, 1, &mut thread_state);

    assert_eq!(f, 1);
    assert_eq!(t, vec![SAINT_MIN, 0, 0, 0]);
    assert_eq!(sa, vec![0, 2, SAINT_MIN, 4]);
}

#[test]
fn compact_unique_and_nonunique_lms_suffixes_32s_splits_unique_and_nonunique_ranges() {
    let mut sa = vec![0, 0, 0, 0, SAINT_MIN, 4];
    let mut l = 2;
    let mut r = 6;

    compact_unique_and_nonunique_lms_suffixes_32s(&mut sa, 2, &mut l, &mut r, 0, 2);

    assert_eq!(l, 2);
    assert_eq!(r, 6);
    assert_eq!(sa[2], 0);
    assert_eq!(sa[3] & SAINT_MAX, 0);
}

#[test]
fn compact_lms_suffixes_32s_omp_runs_renumber_then_compaction() {
    let mut t = vec![0, 0, 0, 0];
    let mut sa = vec![0, 2, -1, 5, 77, 88];
    let mut thread_state = alloc_thread_state(2).unwrap();

    let f = compact_lms_suffixes_32s_omp(&mut t, &mut sa, 4, 2, 2, 2, &mut thread_state);

    assert_eq!(f, 1);
    assert_eq!(sa[2] & SAINT_MAX, 0);
    assert_eq!(sa[5], 3);
}

#[test]
fn merge_unique_lms_suffixes_32s_noops_for_empty_block() {
    let mut t = vec![1, SAINT_MIN, 2, SAINT_MIN];
    let mut sa = vec![0, 0, 1, 3];
    let before_t = t.clone();
    let before_sa = sa.clone();

    merge_unique_lms_suffixes_32s(&mut t, &mut sa, 4, 1, 0, 0, 0);

    assert_eq!(t, before_t);
    assert_eq!(sa, before_sa);
}

#[test]
fn merge_nonunique_lms_suffixes_32s_noops_for_empty_block() {
    let mut sa = vec![0, 7, 0, 13, 11];
    let before = sa.clone();

    merge_nonunique_lms_suffixes_32s(&mut sa, 4, 1, 0, 0, 0);

    assert_eq!(sa, before);
}

#[test]
fn merge_compacted_lms_suffixes_32s_omp_preserves_input_text_and_fills_zero_slots() {
    let mut t = vec![1, 2, 3, 4];
    let mut sa = vec![0, 1, 2, 3, 4, 5];
    let before_t = t.clone();
    let mut thread_state = alloc_thread_state(2).unwrap();

    merge_compacted_lms_suffixes_32s_omp(&mut t, &mut sa, 4, 1, 1, 2, &mut thread_state);

    assert_eq!(t, before_t);
    assert_eq!(sa[0], 3);
    assert_eq!(sa[1], 1);
}

#[test]
fn bwt_copy_8u_copies_low_bytes_from_suffix_array_storage() {
    let a = vec![65, 255, 256, -1];
    let mut u = vec![0_u8; 4];

    bwt_copy_8u(&mut u, &a, 4);

    assert_eq!(u, vec![65, 255, 0, 255]);
}

#[test]
fn bwt_copy_8u_omp_matches_sequential_copy() {
    let a = vec![1, 2, 3, 4, 5];
    let mut u = vec![0_u8; 5];

    bwt_copy_8u_omp(&mut u, &a, 5, 4);

    assert_eq!(u, vec![1, 2, 3, 4, 5]);
}
