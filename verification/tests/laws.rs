use libsais::{
    compact_and_place_cached_suffixes, compute_phi, count_and_gather_lms_suffixes_32s_2k,
    count_and_gather_lms_suffixes_32s_4k, count_lms_suffixes_32s_2k, count_lms_suffixes_32s_4k, create_ctx,
    gather_lms_suffixes_32s, gather_marked_lms_suffixes, initialize_buckets_end_32s_1k, initialize_buckets_start_32s_1k,
    libsais, libsais_bwt, libsais_bwt_aux, libsais_ctx, libsais_lcp, libsais_plcp, libsais_unbwt, libsais_unbwt_aux,
    mark_distinct_lms_suffixes_32s, merge_nonunique_lms_suffixes_32s, partial_sorting_gather_lms_suffixes_32s_1k,
    partial_sorting_gather_lms_suffixes_32s_4k, radix_sort_lms_suffixes_32s_2k, radix_sort_set_markers_32s_6k,
    reconstruct_lms_suffixes, renumber_lms_suffixes_8u, unbwt_decode_omp, unbwt_init_parallel, unbwt_init_single,
    unbwt_transpose_bucket2, SaSint, ThreadCache, SAINT_MIN,
};

/// A sequence of pseudo-random numbers.
fn next(state: &mut u32) -> u32 {
    *state = state.wrapping_mul(1_664_525).wrapping_add(1_013_904_223);
    *state >> 16
}

/// Texts of several lengths over few bytes.
fn texts() -> Vec<Vec<u8>> {
    let mut state: u32 = 4;
    let mut all: Vec<Vec<u8>> = vec![Vec::new(), b"x".to_vec(), b"banana".to_vec()];
    for len in [2, 7, 40, 201] {
        all.push((0..len).map(|_| (next(&mut state) % 3) as u8 + b'a').collect());
    }
    all
}

#[test]
fn a_context_that_has_served_sorts_as_none_does() {
    let mut ctx = create_ctx().expect("context");
    for t in texts() {
        for fs in [0, 4] {
            let n = t.len();
            let mut plain = vec![3; n + fs];
            let mut held = plain.clone();
            let (mut f, mut g) = (vec![6; 300], vec![6; 300]);
            let r = libsais(&t, &mut plain, fs as SaSint, Some(&mut f));
            assert_eq!(libsais_ctx(&mut ctx, &t, &mut held, fs as SaSint, Some(&mut g)), r);
            assert_eq!(held[..n], plain[..n]);
            assert_eq!(f, g);
            assert_eq!((ctx.buckets.len(), ctx.threads, ctx.thread_state.is_none()), (2048, 1, true));
        }
    }
}

#[test]
fn samples_are_one_more_than_ranks() {
    for t in texts().into_iter().filter(|t| !t.is_empty()) {
        let n = t.len();
        let mut v = vec![0u8; n];
        let index = libsais_bwt(&t, &mut v, &mut vec![0; n], 0, None);
        for r in [2, 4, 64] {
            let count = (n - 1) / r + 1;
            let mut u = vec![0u8; n];
            let mut i = vec![-8; count + 1];
            assert_eq!(libsais_bwt_aux(&t, &mut u, &mut vec![0; n], 0, None, r as SaSint, &mut i), 0);
            for j in 0..count {
                let smaller = (0..n).filter(|&q| t[q..] < t[j * r..]).count();
                assert_eq!(i[j] as usize, smaller + 1);
            }
            assert_eq!(i[count], -8);
            assert_eq!(i[0], index);
            assert_eq!(u, v);
            let mut back = vec![0u8; n];
            assert_eq!(libsais_unbwt_aux(&u, &mut back, &mut vec![0; n + 1], None, r as SaSint, &i), 0);
            assert_eq!(back, t);
        }
    }
}

#[test]
fn every_text_comes_back_with_or_without_its_frequencies() {
    for t in texts() {
        let n = t.len();
        let mut u = vec![9u8; n + 3];
        let mut freq = vec![0; 256];
        let index = libsais_bwt(&t, &mut u, &mut vec![0; n], 0, Some(&mut freq));
        for given in [false, true] {
            let mut v = vec![7u8; n + 2];
            let table = if given { Some(&freq[..]) } else { None };
            assert_eq!(libsais_unbwt(&u[..n], &mut v, &mut vec![0; n + 1], table, index), 0);
            assert_eq!(v[..n], t[..]);
        }
    }
}

#[test]
fn neighbours_share_what_the_lengths_say() {
    for t in texts().into_iter().filter(|t| !t.is_empty()) {
        let n = t.len();
        let mut sa = vec![0; n];
        assert_eq!(libsais(&t, &mut sa, 0, None), 0);
        let mut phi = vec![0; n];
        compute_phi(&sa, &mut phi, n as SaSint, 0, n as isize);
        for j in 0..n {
            assert_eq!(phi[sa[j] as usize], if j == 0 { n as SaSint } else { sa[j - 1] });
        }
        let (mut plcp, mut lcp) = (vec![0; n], vec![5; n]);
        assert_eq!(libsais_plcp(&t, &sa, &mut plcp), 0);
        assert_eq!(libsais_lcp(&plcp, &sa, &mut lcp), 0);
        assert_eq!(lcp[0], 0);
        for j in 1..n {
            let (a, b) = (&t[sa[j - 1] as usize..], &t[sa[j] as usize..]);
            assert_eq!(lcp[j] as usize, a.iter().zip(b).take_while(|(x, y)| x == y).count());
        }
    }
}

#[test]
fn shared_tables_are_those_of_one_worker_and_decode_alike() {
    let n = 66_000;
    let mut state: u32 = 12;
    let t: Vec<u8> = (0..n).map(|_| (next(&mut state) % 200) as u8).collect();
    let mut u = vec![0u8; n];
    let index = libsais_bwt(&t, &mut u, &mut vec![0; n], 0, None) as u32;
    let (mut p, mut b, mut f) = (vec![0; n + 1], vec![0; 65_536], vec![0; 131_073]);
    unbwt_init_single(&u, &mut p, n as SaSint, None, &[index], &mut b, &mut f);
    let (mut q, mut c, mut g) = (vec![0; n + 1], vec![0; 65_536], vec![0; 131_073]);
    let mut own = vec![0; 3 * (256 + 65_536)];
    unbwt_init_parallel(&u, &mut q, n as SaSint, Some(&[0; 256]), &[index], &mut c, &mut g, Some(&mut own), 3);
    assert_eq!((&p, &b, &f), (&q, &c, &g));
    for threads in [-1, 1, 9] {
        let mut back = vec![0u8; n];
        unbwt_decode_omp(&u, &mut back, &p, n as SaSint, n as SaSint, &[index], &b, &f, threads);
        assert_eq!(back[n - 1], u[0]);
        assert_eq!(back, t);
    }
}

#[test]
fn exchanging_the_bytes_of_pairs_is_undone_by_exchanging() {
    let first: Vec<u32> = (0..65_540).map(|w| w * 7 + 1).collect();
    let mut b = first.clone();
    unbwt_transpose_bucket2(&mut b);
    for (x, y) in [(0, 0), (1, 2), (255, 0), (17, 200)] {
        assert_eq!(b[(x << 8) + y], first[(y << 8) + x]);
    }
    assert_eq!(b[65_536..], first[65_536..]);
    unbwt_transpose_bucket2(&mut b);
    assert_eq!(b, first);
}

#[test]
fn one_pass_counts_and_gathers_what_two_do() {
    let mut state: u32 = 30;
    for n in [1, 2, 9, 100] {
        let t: Vec<SaSint> = (0..n).map(|_| next(&mut state) as SaSint % 7).collect();
        let mut gathered = vec![-1; n];
        let m = gather_lms_suffixes_32s(&t, &mut gathered, n as SaSint);
        let from = n - m as usize;
        let (mut sa, mut b, mut c) = (vec![-2; n], vec![0; 28], vec![0; 28]);
        assert_eq!(count_and_gather_lms_suffixes_32s_4k(&t, &mut sa, n as SaSint, 7, &mut b, 0, n as isize), m);
        count_lms_suffixes_32s_4k(&t, n as SaSint, 7, &mut c);
        assert_eq!(sa[from..], gathered[from..]);
        assert_eq!(b, c);
        assert_eq!(b.iter().sum::<SaSint>(), n as SaSint);
        let (mut sa, mut b, mut c) = (vec![-2; n], vec![0; 14], vec![0; 14]);
        assert_eq!(count_and_gather_lms_suffixes_32s_2k(&t, &mut sa, n as SaSint, 7, &mut b, 0, n as isize), m);
        count_lms_suffixes_32s_2k(&t, n as SaSint, 7, &mut c);
        assert_eq!(sa[from..], gathered[from..]);
        assert_eq!(b, c);
        assert_eq!(b.iter().sum::<SaSint>(), n as SaSint);
    }
}

#[test]
fn buckets_tile_the_slots() {
    let counts = vec![4, 0, 3, 1, 0];
    let (mut s, mut e) = (counts.clone(), counts.clone());
    initialize_buckets_start_32s_1k(5, &mut s);
    initialize_buckets_end_32s_1k(5, &mut e);
    assert_eq!(s, vec![0, 4, 4, 7, 8]);
    assert_eq!(e, vec![4, 4, 7, 8, 8]);
}

#[test]
fn marked_entries_are_moved_in_order() {
    let mut sa = vec![9, 4 | SAINT_MIN, 5, SAINT_MIN, 6 | SAINT_MIN, 0, 0, 0, 8];
    assert_eq!(gather_marked_lms_suffixes(&mut sa, 1, 8, 0, 4), 5);
    assert_eq!(sa[5..], [4, 0, 6, 8]);
    assert_eq!(sa[0], 9);
    let mut sa = vec![1, 2 | SAINT_MIN, 3, 4 | SAINT_MIN, 5];
    assert_eq!(partial_sorting_gather_lms_suffixes_32s_1k(&mut sa, 1, 3), 3);
    assert_eq!(sa[..3], [1, 2, 4]);
    assert_eq!(sa[4], 5);
    let group = 1 << 30;
    let mut sa = vec![7, 2 | SAINT_MIN | group, 4 | SAINT_MIN];
    assert_eq!(partial_sorting_gather_lms_suffixes_32s_4k(&mut sa, 0, 3), 2);
    assert_eq!(sa[..2], [2 | SAINT_MIN, 4]);
}

#[test]
fn suffixes_are_named_by_the_marks_before_them() {
    let mut sa = vec![2 | SAINT_MIN, 0, 6 | SAINT_MIN, 4, 0, 0, 0, 0];
    assert_eq!(renumber_lms_suffixes_8u(&mut sa, 4, 5, 0, 4), 7);
    assert_eq!(sa[4..], [6 | SAINT_MIN, 5 | SAINT_MIN, 7 | SAINT_MIN, 6 | SAINT_MIN]);
    let mut sa = vec![3, 5 | SAINT_MIN, 0, 6 | SAINT_MIN, 8, 9 | SAINT_MIN];
    mark_distinct_lms_suffixes_32s(&mut sa, 1, 0, 5);
    assert_eq!(sa, vec![3, 5, 0, 6 | SAINT_MIN, 8, 9]);
    let mut sa = vec![1, 2, 3, 4 | SAINT_MIN];
    radix_sort_set_markers_32s_6k(&mut sa, &[2, 3, 0], 0, 2);
    assert_eq!(sa, vec![1, 2, 3 | SAINT_MIN, 4 | SAINT_MIN]);
}

#[test]
fn ranks_are_replaced_and_empty_slots_filled() {
    let mut sa = vec![2, 0, 1, 9, 40, 50, 60];
    reconstruct_lms_suffixes(&mut sa, 7, 3, 0, 3);
    assert_eq!(sa, vec![60, 40, 50, 9, 40, 50, 60]);
    let mut sa = vec![5, 0, 6, 0, 7, 21, 22, 23];
    merge_nonunique_lms_suffixes_32s(&mut sa, 8, 2, 0, 0, 4);
    assert_eq!(sa, vec![5, 21, 6, 22, 7, 21, 22, 23]);
}

#[test]
fn cache_entries_with_a_slot_are_placed() {
    let entry = |symbol: SaSint, index: SaSint| ThreadCache { symbol, index };
    let mut cache = vec![entry(0, 1), entry(3, 11), entry(-1, 12), entry(1, 13), entry(2, 99)];
    let mut sa = vec![0; 5];
    compact_and_place_cached_suffixes(&mut sa, &mut cache, 1, 3);
    assert_eq!(sa, vec![0, 13, 0, 11, 0]);
    assert_eq!(cache[..3], [entry(0, 1), entry(3, 11), entry(1, 13)]);
}

#[test]
fn suffixes_with_the_same_symbol_keep_their_order() {
    let t = vec![1, 0, 1, 0, 1];
    let mut sa = vec![0, 0, 0, 0, 0, 4, 1, 0, 3, 2];
    let mut buckets = vec![2, -1, 5, -1];
    radix_sort_lms_suffixes_32s_2k(&t, &mut sa, &mut buckets, 5, 5);
    assert_eq!(sa[..5], [1, 3, 4, 0, 2]);
    assert_eq!(buckets, vec![0, -1, 2, -1]);
}
