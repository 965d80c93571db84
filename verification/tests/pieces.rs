use libsais::{
    SAINT_MIN, FastSint, SaSint, accumulate_counts_s32, count_lms_suffixes_32s_2k,
    count_lms_suffixes_32s_4k, create_ctx, create_ctx_omp, flip_suffix_markers_omp, free_ctx,
    gather_lms_suffixes_32s, initialize_buckets_end_32s_1k, initialize_buckets_end_32s_2k,
    initialize_buckets_start_32s_1k, initialize_buckets_start_and_end_32s_2k,
    normalize_omp_threads, unbwt_create_ctx, unbwt_create_ctx_omp, unbwt_free_ctx,
    unbwt_transpose_bucket2,
};
use libsais::blocks::block_range;
use libsais::order::sort_by_insertion;

#[test]
fn flipping_markers_twice_changes_nothing() {
    let mut sa = vec![1, -2, SAINT_MIN, 0, 7];
    let before = sa.clone();
    flip_suffix_markers_omp(&mut sa, 4, 2);
    assert_eq!(sa, vec![1 ^ SAINT_MIN, -2 ^ SAINT_MIN, 0, SAINT_MIN, 7]);
    flip_suffix_markers_omp(&mut sa, 4, 1);
    assert_eq!(sa, before);
}

#[test]
fn transposing_twice_changes_nothing() {
    let mut bucket2: Vec<u32> = (0..65536).collect();
    unbwt_transpose_bucket2(&mut bucket2);
    for c in 0..256 {
        for d in 0..256 {
            assert_eq!(bucket2[256 * c + d] as usize, 256 * d + c);
        }
    }
    unbwt_transpose_bucket2(&mut bucket2);
    assert_eq!(bucket2, (0..65536).collect::<Vec<u32>>());
}

#[test]
fn gathering_lists_leftmost_suffixes() {
    let t = vec![3, 1, 2, 2, 1, 2, 2, 1, 4, 4, 1];
    let mut sa = vec![0; t.len()];
    let m = gather_lms_suffixes_32s(&t, &mut sa, t.len() as SaSint);
    assert_eq!(m, 3);
    assert_eq!(&sa[t.len() - 3..], &[1, 4, 7]);
}

#[test]
fn counting_tells_types_apart() {
    let t = vec![3, 1, 2, 2, 1, 2, 2, 1, 4, 4, 1];
    let mut four = vec![0; 4 * 5];
    count_lms_suffixes_32s_4k(&t, t.len() as SaSint, 5, &mut four);
    assert_eq!(&four[4..8], &[0, 3, 0, 1]);
    assert_eq!(&four[8..12], &[0, 0, 2, 2]);
    assert_eq!(&four[12..16], &[0, 0, 1, 0]);
    assert_eq!(&four[16..20], &[0, 0, 1, 1]);
    assert_eq!(four.iter().sum::<SaSint>(), t.len() as SaSint);
    let mut two = vec![0; 2 * 5];
    count_lms_suffixes_32s_2k(&t, t.len() as SaSint, 5, &mut two);
    assert_eq!(two, vec![0, 0, 1, 3, 4, 0, 1, 0, 2, 0]);
}

#[test]
fn bounds_are_running_sums() {
    let mut starts = vec![2, 0, 5, 1, 9];
    initialize_buckets_start_32s_1k(4, &mut starts);
    assert_eq!(starts, vec![0, 2, 2, 7, 9]);
    let mut ends = vec![2, 0, 5, 1, 9];
    initialize_buckets_end_32s_1k(4, &mut ends);
    assert_eq!(ends, vec![2, 2, 7, 8, 9]);
    let mut pairs = vec![2, 1, 0, 4, 5, 0];
    initialize_buckets_end_32s_2k(3, &mut pairs);
    assert_eq!(pairs, vec![3, 1, 7, 4, 12, 0]);
    initialize_buckets_start_and_end_32s_2k(3, &mut pairs);
    assert_eq!(pairs, vec![3, 7, 12, 0, 3, 7]);
}

#[test]
fn accumulating_adds_all_buckets() {
    for num in 2..30usize {
        let mut buckets: Vec<SaSint> = (0..3 * num as SaSint).collect();
        let expected: Vec<SaSint> =
            (0..3).map(|x| (0..num).map(|j| (3 * j + x) as SaSint).sum()).collect();
        accumulate_counts_s32(&mut buckets, 3, 3, num as FastSint);
        assert_eq!(&buckets[3 * (num - 1)..], expected.as_slice());
    }
}

#[test]
fn blocks_tile_their_range() {
    for n in [0usize, 1, 15, 16, 100, 1000, 65_537] {
        for workers in 1..9usize {
            let mut next = 0;
            for i in 0..workers {
                let (lo, hi) = block_range(n, workers, i);
                assert_eq!(lo, next);
                assert!(i + 1 == workers || (hi - lo) % 16 == 0);
                next = hi;
            }
            assert_eq!(next, n);
        }
    }
}

#[test]
fn insertion_sorts_suffixes() {
    let t = vec![2, 1, 3, 1, 0];
    let mut sa = vec![0; 6];
    sa[5] = 77;
    sort_by_insertion(&t, &mut sa);
    assert_eq!(sa, vec![4, 3, 1, 0, 2, 77]);
    let mut sa = vec![9; 3];
    sort_by_insertion(&[-5, 7, -5], &mut sa);
    assert_eq!(sa, vec![2, 0, 1]);
}

#[test]
fn contexts_need_a_count_of_threads() {
    assert!(create_ctx_omp(-1, 4).is_none());
    assert_eq!(create_ctx_omp(0, 4).expect("context").threads, 4);
    assert_eq!(create_ctx_omp(3, 8).expect("context").threads, 3);
    assert!(unbwt_create_ctx_omp(-1, 4).is_none());
    assert_eq!(unbwt_create_ctx_omp(2, 4).expect("context").threads, 2);
    assert_eq!(normalize_omp_threads(0, 3), 3);
    assert_eq!(normalize_omp_threads(2, 8), 2);
    unbwt_free_ctx(unbwt_create_ctx().expect("context"));
    free_ctx(create_ctx().expect("context"));
}
