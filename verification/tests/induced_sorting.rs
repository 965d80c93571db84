use libsais::{
    compact_lms_suffixes_32s_omp, count_suffixes_32s, gather_lms_suffixes_32s, induce_final_order_32s_1k,
    induce_partial_order_32s_1k_omp, initialize_buckets_end_32s_1k, libsais_main_32s_entry,
    place_lms_suffixes_interval_32s_1k, radix_sort_lms_suffixes_32s_1k, reconstruct_compacted_lms_suffixes_32s_1k_omp,
    renumber_and_mark_distinct_lms_suffixes_32s_1k_omp, SaSint,
};

fn order_of(t: &[SaSint]) -> Vec<SaSint> {
    let mut sa: Vec<SaSint> = (0..t.len() as SaSint).collect();
    sa.sort_by(|&a, &b| t[a as usize..].cmp(&t[b as usize..]));
    sa
}

fn leftmost(t: &[SaSint]) -> Vec<SaSint> {
    let n = t.len();
    let mut is_l = vec![true; n];
    for i in (0..n - 1).rev() {
        is_l[i] = t[i] > t[i + 1] || (t[i] == t[i + 1] && is_l[i + 1]);
    }
    (1..n).filter(|&i| !is_l[i] && is_l[i - 1]).map(|i| i as SaSint).collect()
}

fn substring(t: &[SaSint], lms: &[SaSint], p: SaSint) -> Vec<SaSint> {
    match lms.iter().find(|&&q| q > p) {
        Some(&q) => t[p as usize..=q as usize].to_vec(),
        None => t[p as usize..].to_vec(),
    }
}

fn bucket_ends(t: &[SaSint], k: SaSint, buckets: &mut [SaSint]) {
    count_suffixes_32s(t, t.len() as SaSint, k, buckets);
    initialize_buckets_end_32s_1k(k, buckets);
}

fn pseudo_random(n: usize, k: SaSint, seed: u64) -> Vec<SaSint> {
    let mut state = seed;
    (0..n)
        .map(|_| {
            state = state.wrapping_mul(6364136223846793005).wrapping_add(1442695040888963407);
            ((state >> 33) % k as u64) as SaSint
        })
        .collect()
}

fn texts() -> Vec<(Vec<SaSint>, SaSint)> {
    let mut texts = vec![
        (vec![2, 1, 2, 1, 2, 0, 2, 1, 2, 1, 2, 0, 1], 3),
        (vec![1, 0, 1, 0, 1, 0, 1, 0, 1, 0], 2),
        (vec![3, 1, 4, 1, 5, 9, 2, 6, 5, 3, 5, 8, 9, 7, 9, 3, 2, 3, 8, 4, 6], 10),
        (vec![1, 0, 2, 0, 3, 1, 0, 2, 0, 3, 1, 0, 2, 0, 4, 0, 5], 6),
    ];
    for seed in 0..40 {
        texts.push((pseudo_random(60 + seed, 2 + (seed % 5) as SaSint, seed as u64 + 1), 2 + (seed % 5) as SaSint));
    }
    texts
}

/// The text with its LMS suffixes in the order of their substrings.
fn partially_ordered(t: &[SaSint], k: SaSint, fs: usize) -> (Vec<SaSint>, Vec<SaSint>, SaSint) {
    let n = t.len() as SaSint;
    let mut sa = vec![0; t.len() + fs];
    let mut buckets = vec![0; k as usize];
    bucket_ends(t, k, &mut buckets);
    let m = radix_sort_lms_suffixes_32s_1k(t, &mut sa, n, &mut buckets);
    if m > 1 {
        induce_partial_order_32s_1k_omp(t, &mut sa, n, k, &mut buckets, 1, &mut []);
    }
    (sa, buckets, m)
}

fn finish(t: &[SaSint], k: SaSint, m: SaSint, sa: &mut [SaSint], buckets: &mut [SaSint]) {
    if m > 1 {
        bucket_ends(t, k, buckets);
        place_lms_suffixes_interval_32s_1k(t, sa, k, m, buckets);
    }
    induce_final_order_32s_1k(t, sa, t.len() as SaSint, k, buckets, 1, &mut []);
}

#[test]
fn leftmost_suffixes_are_few() {
    for (t, _) in texts() {
        let mut sa = vec![0; t.len()];
        let m = gather_lms_suffixes_32s(&t, &mut sa, t.len() as SaSint);
        let lms = leftmost(&t);
        assert_eq!(m as usize, lms.len());
        assert!(2 * lms.len() <= t.len() - 1);
        assert_eq!(sa[t.len() - lms.len()..].to_vec(), lms);
    }
}

#[test]
fn partial_order_sorts_substrings() {
    for (t, k) in texts() {
        let lms = leftmost(&t);
        let (sa, _, m) = partially_ordered(&t, k, 0);
        assert_eq!(m as usize, lms.len());
        if m > 1 {
            let mut listed = sa[..m as usize].to_vec();
            for pair in listed.windows(2) {
                let a = substring(&t, &lms, pair[0]);
                let b = substring(&t, &lms, pair[1]);
                assert!(a <= b || a.starts_with(&b));
            }
            listed.sort();
            assert_eq!(listed, lms);
        }
    }
}

#[test]
fn names_follow_substrings() {
    for (t, k) in texts() {
        let lms = leftmost(&t);
        let n = t.len() as SaSint;
        let (mut sa, _, m) = partially_ordered(&t, k, 0);
        if m > 1 {
            let names = renumber_and_mark_distinct_lms_suffixes_32s_1k_omp(&t, &mut sa, n, m, 1);
            let mut different: Vec<Vec<SaSint>> = lms.iter().map(|&p| substring(&t, &lms, p)).collect();
            let last = different.len() - 1;
            different[last].push(-1);
            different.sort();
            different.dedup();
            assert_eq!(names as usize, different.len());
        }
    }
}

#[test]
fn naming_sorting_and_restoring_sort_leftmost_suffixes() {
    for (original, k) in texts() {
        let mut t = original.clone();
        let n = t.len() as SaSint;
        let fs = 7;
        let (mut sa, mut buckets, m) = partially_ordered(&t, k, fs);
        if m > 1 {
            let names = renumber_and_mark_distinct_lms_suffixes_32s_1k_omp(&t, &mut sa, n, m, 1);
            if names < m {
                let f = compact_lms_suffixes_32s_omp(&mut t, &mut sa, n, m, fs as SaSint, 1, &mut []);
                assert!(0 <= f && f < m);
                assert_eq!(t.iter().filter(|&&c| c < 0).count(), f as usize);
                let size = (m - f) as usize;
                let total = t.len() + fs;
                let reduced = sa[total - size..].to_vec();
                sa[..size].copy_from_slice(&order_of(&reduced));
                reconstruct_compacted_lms_suffixes_32s_1k_omp(&mut t, &mut sa, n, m, fs as SaSint, f, 1, &mut []);
                assert_eq!(t, original);
            }
            let lms = leftmost(&t);
            let expected: Vec<SaSint> = order_of(&t).into_iter().filter(|p| lms.contains(p)).collect();
            assert_eq!(sa[..m as usize].to_vec(), expected);
        }
        finish(&t, k, m, &mut sa, &mut buckets);
        assert_eq!(sa[..t.len()].to_vec(), order_of(&t));
    }
}

#[test]
fn compaction_leaves_out_names_that_stand_alone() {
    let original = vec![1, 0, 2, 0, 3, 1, 0, 2, 0, 3, 1, 0, 2, 0, 4, 0, 5];
    let n = original.len() as SaSint;
    let mut t = original.clone();
    let (mut sa, _, m) = partially_ordered(&t, 6, 0);
    assert_eq!(m, 7);
    assert_eq!(sa[..7].to_vec(), vec![1, 6, 11, 3, 8, 13, 15]);
    let names = renumber_and_mark_distinct_lms_suffixes_32s_1k_omp(&t, &mut sa, n, m, 1);
    assert_eq!(names, 4);
    let f = compact_lms_suffixes_32s_omp(&mut t, &mut sa, n, m, 0, 1, &mut []);
    assert_eq!(f, 1);
    let marked: Vec<usize> = (0..t.len()).filter(|&i| t[i] < 0).collect();
    assert_eq!(marked, vec![15]);
    assert_eq!(sa[10..].to_vec(), vec![6, 0, 1, 0, 1, 0, 2]);
    let mut t = original.clone();
    let mut sa = vec![0; t.len()];
    libsais_main_32s_entry(&mut t, &mut sa, n, 6, 0, 1, &mut []);
    assert_eq!(sa, order_of(&original));
}
