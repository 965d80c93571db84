use libsais::{
    compact_lms_suffixes_32s_omp, count_and_gather_lms_suffixes_32s_2k, count_and_gather_lms_suffixes_8u_omp,
    count_lms_suffixes_32s_2k, gather_lms_suffixes_8u_omp, induce_final_order_32s_2k, induce_final_order_8u_omp,
    induce_partial_order_32s_2k_omp, induce_partial_order_8u_omp, initialize_buckets_end_32s_2k,
    initialize_buckets_for_lms_suffixes_radix_sort_32s_2k, initialize_buckets_for_lms_suffixes_radix_sort_8u,
    initialize_buckets_for_partial_sorting_8u, initialize_buckets_start_and_end_32s_2k, initialize_buckets_start_and_end_8u,
    libsais_main_32s_entry, libsais_main_8u, place_lms_suffixes_histogram_32s_2k, place_lms_suffixes_interval_32s_2k, place_lms_suffixes_interval_8u,
    radix_sort_lms_suffixes_32s_2k_omp, radix_sort_lms_suffixes_8u_omp, reconstruct_compacted_lms_suffixes_32s_2k_omp,
    reconstruct_lms_suffixes_omp, renumber_and_gather_lms_suffixes_omp, renumber_and_mark_distinct_lms_suffixes_32s_1k_omp,
    transform_8u, SaSint, LIBSAIS_FLAGS_GSA,
};

fn order_of<T: Ord>(t: &[T]) -> Vec<SaSint> {
    let mut sa: Vec<SaSint> = (0..t.len() as SaSint).collect();
    sa.sort_by(|&a, &b| t[a as usize..].cmp(&t[b as usize..]));
    sa
}

fn leftmost<T: Ord>(t: &[T]) -> Vec<SaSint> {
    let n = t.len();
    let mut is_l = vec![true; n];
    for i in (0..n - 1).rev() {
        is_l[i] = t[i] > t[i + 1] || (t[i] == t[i + 1] && is_l[i + 1]);
    }
    (1..n).filter(|&i| !is_l[i] && is_l[i - 1]).map(|i| i as SaSint).collect()
}

fn pseudo_random(n: usize, k: u64, seed: u64) -> Vec<u8> {
    let mut state = seed;
    (0..n)
        .map(|_| {
            state = state.wrapping_mul(6364136223846793005).wrapping_add(1442695040888963407);
            ((state >> 33) % k) as u8
        })
        .collect()
}

fn texts() -> Vec<Vec<u8>> {
    let mut texts = vec![
        b"mississippi".to_vec(),
        b"abracadabra abracadabra".to_vec(),
        b"immissiissippi immissiissippi".to_vec(),
        vec![1, 0, 1, 0, 1, 0, 1, 0, 1, 0],
        vec![5, 4, 3, 2, 1],
        vec![1, 2, 3, 4, 255],
        vec![255, 0, 255, 0, 255, 254, 255, 0, 255, 0],
    ];
    for seed in 0..40 {
        texts.push(pseudo_random(40 + seed, 2 + seed as u64 % 7, seed as u64 + 3));
    }
    texts
}

/// The LMS suffixes of `t` in the order of their substrings, marked, with the buckets.
fn partially_ordered(t: &[u8], sa: &mut [SaSint], buckets: &mut [SaSint]) -> SaSint {
    let n = t.len() as SaSint;
    let m = count_and_gather_lms_suffixes_8u_omp(t, sa, n, buckets, 1, &mut []);
    initialize_buckets_start_and_end_8u(buckets, None);
    if m > 0 {
        let first = sa[(n - m) as usize];
        let left = initialize_buckets_for_lms_suffixes_radix_sort_8u(t, buckets, first);
        radix_sort_lms_suffixes_8u_omp(t, sa, n, m, 0, buckets, 1, &mut []);
        initialize_buckets_for_partial_sorting_8u(t, buckets, first, left);
        induce_partial_order_8u_omp(t, sa, n, 256, 0, buckets, first, left, 1, &mut []);
    }
    m
}

#[test]
fn bytes_are_sorted_stage_by_stage() {
    for t in texts() {
        let n = t.len() as SaSint;
        let fs = 5;
        let mut sa = vec![-7; t.len() + fs];
        let mut buckets = vec![0; 2048];
        let m = partially_ordered(&t, &mut sa, &mut buckets);
        let lms = leftmost(&t);
        assert_eq!(m as usize, lms.len());
        if m > 0 {
            let mut listed: Vec<SaSint> = sa[..m as usize].iter().map(|&p| p & SaSint::MAX).collect();
            listed.sort();
            assert_eq!(listed, lms);
            let names = renumber_and_gather_lms_suffixes_omp(&mut sa, n, m, fs as SaSint, 1, &mut []);
            if names < m {
                let reduced = sa[t.len() + fs - m as usize..].to_vec();
                sa[..m as usize].copy_from_slice(&order_of(&reduced));
                gather_lms_suffixes_8u_omp(&t, &mut sa, n, 1, &mut []);
                reconstruct_lms_suffixes_omp(&mut sa, n, m, 1);
            }
            let expected: Vec<SaSint> = order_of(&t).into_iter().filter(|p| lms.contains(p)).collect();
            assert_eq!(sa[..m as usize].to_vec(), expected);
            place_lms_suffixes_interval_8u(&mut sa, n, m, 0, &mut buckets);
        } else {
            for slot in sa[..t.len()].iter_mut() {
                *slot = 0;
            }
        }
        induce_final_order_8u_omp(&t, &mut sa, n, 256, 0, 0, None, &mut buckets, 1, &mut []);
        assert_eq!(sa[..t.len()].to_vec(), order_of(&t));
    }
}

#[test]
fn plain_bytes_are_sorted_in_given_buckets() {
    for t in texts() {
        let mut sa = vec![-1; t.len() + 3];
        let mut buckets = vec![9; 2048];
        assert_eq!(libsais_main_8u(&t, &mut sa, &mut buckets, 0, 3, 1, &mut []), 0);
        assert_eq!(sa[..t.len()].to_vec(), order_of(&t));
    }
}

fn separated_texts() -> Vec<Vec<u8>> {
    let mut texts = vec![
        b"a\0".to_vec(),
        b"a\0b\0".to_vec(),
        b"ab\0ab\0ab\0".to_vec(),
        b"banana\0ananas\0nab\0".to_vec(),
        b"zyx\0zyx\0".to_vec(),
        b"abcabcabc\0abcabc\0abc\0".to_vec(),
    ];
    for seed in 0..60u64 {
        let letters = pseudo_random(30 + 3 * seed as usize, 2 + seed % 5, seed + 11);
        let mut text: Vec<u8> = Vec::new();
        for c in letters {
            if c == 0 && text.last().is_some_and(|&last| last != 0) {
                text.push(0);
            } else {
                text.push(c + 1);
            }
        }
        if text.last() != Some(&0) {
            text.push(0);
        }
        texts.push(text);
    }
    texts
}

#[test]
fn separated_texts_are_sorted_in_given_buckets() {
    for t in separated_texts() {
        let n = t.len();
        let keys: Vec<SaSint> =
            t.iter().enumerate().map(|(i, &c)| if c == 0 { i as SaSint - n as SaSint } else { c as SaSint }).collect();
        for fs in [0, 5] {
            let mut sa = vec![-1; n + fs as usize];
            let mut buckets = vec![7; 2048];
            assert_eq!(libsais_main_8u(&t, &mut sa, &mut buckets, LIBSAIS_FLAGS_GSA, fs, 1, &mut []), 0);
            assert_eq!(sa[..n].to_vec(), order_of(&keys));
        }
    }
    let mut sa = vec![-1; 4];
    assert_eq!(libsais_main_8u(b"a\0\0\0", &mut sa, &mut vec![0; 2048], LIBSAIS_FLAGS_GSA, 0, 1, &mut []), -1);
    assert_eq!(sa, vec![-1, -1, -1, 0]);
}

#[test]
fn transforming_leaves_the_bytes_in_front_of_the_suffixes() {
    for t in texts() {
        let order = order_of(&t);
        let fronts: Vec<SaSint> = order.iter().map(|&p| if p > 0 { t[p as usize - 1] as SaSint } else { 0 }).collect();
        let mut a = vec![-1; t.len() + 3];
        let mut buckets = vec![9; 2048];
        let index = transform_8u(&t, &mut a, &mut buckets, 0, None, 3);
        assert_eq!(a[..t.len()].to_vec(), fronts);
        assert_eq!(order[index as usize], 0);
    }
}

#[test]
fn transforming_notes_the_ranks_of_the_sampled_suffixes() {
    for t in texts() {
        let order = order_of(&t);
        for r in [2, 4, 8, 64] {
            let count = (t.len() - 1) / r as usize + 1;
            let mut samples = vec![-5; count + 2];
            let mut a = vec![-1; t.len()];
            let mut buckets = vec![9; 2048];
            assert_eq!(transform_8u(&t, &mut a, &mut buckets, r, Some(&mut samples), 0), 0);
            for k in 0..count {
                assert_eq!(order[samples[k] as usize - 1], k as SaSint * r);
            }
            assert_eq!(samples[count..].to_vec(), vec![-5, -5]);
        }
    }
}

#[test]
fn two_buckets_for_each_symbol_sort_stage_by_stage() {
    for bytes in texts() {
        let original: Vec<SaSint> = bytes.iter().map(|&c| c as SaSint).collect();
        let mut t = original.clone();
        let n = t.len() as SaSint;
        let k = 256;
        let fs = 4;
        let mut sa = vec![-7; t.len() + fs];
        let mut buckets = vec![0; 2 * k as usize];
        let m = count_and_gather_lms_suffixes_32s_2k(&t, &mut sa, n, k, &mut buckets, 0, n as isize);
        let lms = leftmost(&t);
        assert_eq!(m as usize, lms.len());
        if m > 1 {
            let first = sa[(n - m) as usize];
            initialize_buckets_for_lms_suffixes_radix_sort_32s_2k(&t, k, &mut buckets, first);
            radix_sort_lms_suffixes_32s_2k_omp(&t, &mut sa, n, m, &mut buckets[1..], 1, &mut []);
            place_lms_suffixes_interval_32s_2k(&mut sa, n, k, m - 1, &buckets);
            initialize_buckets_start_and_end_32s_2k(k, &mut buckets);
            induce_partial_order_32s_2k_omp(&t, &mut sa, n, k, &mut buckets, 1, &mut []);
            let names = renumber_and_mark_distinct_lms_suffixes_32s_1k_omp(&t, &mut sa, n, m, 1);
            if names < m {
                let f = compact_lms_suffixes_32s_omp(&mut t, &mut sa, n, m, fs as SaSint, 1, &mut []);
                let size = (m - f) as usize;
                let reduced = sa[t.len() + fs - size..].to_vec();
                sa[..size].copy_from_slice(&order_of(&reduced));
                reconstruct_compacted_lms_suffixes_32s_2k_omp(
                    &mut t, &mut sa, n, k, m, fs as SaSint, f, &mut buckets, 0, 1, &mut []);
                assert_eq!(t, original);
            } else {
                count_lms_suffixes_32s_2k(&t, n, k, &mut buckets);
            }
        } else {
            sa[0] = sa[t.len() - 1];
        }
        let expected: Vec<SaSint> = order_of(&t).into_iter().filter(|p| lms.contains(p)).collect();
        assert_eq!(sa[..m as usize].to_vec(), expected);
        initialize_buckets_end_32s_2k(k, &mut buckets);
        place_lms_suffixes_histogram_32s_2k(&mut sa, n, k, m, &buckets);
        initialize_buckets_start_and_end_32s_2k(k, &mut buckets);
        induce_final_order_32s_2k(&t, &mut sa, n, k, &mut buckets, 1, &mut []);
        assert_eq!(sa[..t.len()].to_vec(), order_of(&t));
    }
}

/// A text over few symbols below `k`, the greatest among them.
fn wide_text(n: usize, k: SaSint, symbols: u64, seed: u64) -> Vec<SaSint> {
    let step = (k - 1) / (symbols as SaSint - 1).max(1);
    pseudo_random(n, symbols, seed).into_iter().map(|c| if c as u64 == symbols - 1 { k - 1 } else { c as SaSint * step }).collect()
}

fn sorts_in_place(original: &[SaSint], k: SaSint, fs: usize) {
    let mut t = original.to_vec();
    let n = t.len() as SaSint;
    let mut sa = vec![-3; t.len() + fs];
    assert_eq!(libsais_main_32s_entry(&mut t, &mut sa, n, k, fs as SaSint, 1, &mut []), 0);
    assert_eq!(t, original);
    assert_eq!(sa[..t.len()].to_vec(), order_of(original));
}

#[test]
fn every_number_of_buckets_sorts() {
    for &k in [2, 5, 100, 170, 171, 200, 256, 257, 400, 512, 513, 2000].iter() {
        for seed in 0..12 {
            let symbols = (2 + seed % 4).min(k as u64);
            sorts_in_place(&wide_text(150 + seed as usize, k, symbols, seed + 11), k, 0);
        }
    }
}

#[test]
fn free_space_changes_the_buckets_only() {
    for &fs in [0, 700, 1400, 2800, 4200].iter() {
        for seed in 0..6 {
            sorts_in_place(&wide_text(200, 700, 3 + seed % 3, seed + 5), 700, fs);
        }
    }
}

#[test]
fn long_texts_over_few_symbols_share_names() {
    sorts_in_place(&wide_text(17_000, 2, 2, 77), 2, 0);
    let period: Vec<SaSint> = vec![1, 0, 1, 1, 0, 1, 0];
    let mut t: Vec<SaSint> = Vec::new();
    while t.len() < 16_600 {
        let flip = (t.len() / 7 % 97 == 0) as usize;
        t.extend(period.iter().skip(flip));
    }
    sorts_in_place(&t, 2, 10);
}

#[test]
fn symbols_beyond_the_alphabet_are_sorted_too() {
    sorts_in_place(&[3, 9, 3, 9, 1, 3, 9, 3], 4, 0);
    sorts_in_place(&[2, -1, 2, -1, 0], 3, 2);
    sorts_in_place(&[5, 5, 5], 0, 0);
}
