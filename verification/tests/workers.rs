use libsais::{
    alloc_thread_state, compact_lms_suffixes_32s_omp, compact_unique_and_nonunique_lms_suffixes_32s_omp,
    count_and_gather_lms_suffixes_8u_omp, final_bwt_aux_scan_left_to_right_8u_block_omp,
    final_sorting_scan_left_to_right_8u, final_sorting_scan_left_to_right_8u_block_omp,
    final_sorting_scan_right_to_left_8u, final_sorting_scan_right_to_left_8u_block_omp, gather_lms_suffixes_8u,
    gather_lms_suffixes_8u_omp, gather_marked_lms_suffixes_omp, induce_final_order_32s_1k, induce_final_order_8u_omp,
    induce_partial_order_8u_omp, initialize_buckets_for_lms_suffixes_radix_sort_8u,
    initialize_buckets_for_partial_sorting_8u, initialize_buckets_start_and_end_8u, libsais, libsais_bwt,
    libsais_main_32s_entry, merge_nonunique_lms_suffixes_32s_omp, merge_unique_lms_suffixes_32s_omp,
    partial_sorting_scan_left_to_right_8u, partial_sorting_scan_left_to_right_8u_block_omp,
    partial_sorting_scan_right_to_left_8u, partial_sorting_scan_right_to_left_8u_block_omp,
    place_lms_suffixes_interval_8u, radix_sort_lms_suffixes_8u_omp, reconstruct_lms_suffixes_omp,
    renumber_and_gather_lms_suffixes_omp, renumber_and_mark_distinct_lms_suffixes_32s_4k_omp,
    renumber_distinct_lms_suffixes_32s_4k_omp, renumber_lms_suffixes_8u_omp,
    renumber_unique_and_nonunique_lms_suffixes_32s_omp, SaSint, ThreadCache, ThreadState, LIBSAIS_FLAGS_BWT, SAINT_MAX,
    SAINT_MIN,
};

/// A sequence of pseudo-random numbers.
fn next(state: &mut u32) -> u32 {
    *state = state.wrapping_mul(1_664_525).wrapping_add(1_013_904_223);
    *state >> 16
}

/// A text of random bytes with some repeats.
fn text(len: usize, symbols: u32, seed: u32) -> Vec<u8> {
    let mut state: u32 = seed;
    let mut t: Vec<u8> = Vec::with_capacity(len);
    while t.len() < len {
        if t.len() > 1000 && next(&mut state) % 512 == 0 {
            let from = next(&mut state) as usize % (t.len() - 300);
            for i in from..from + 300 {
                let c = t[i];
                t.push(c);
            }
        } else {
            t.push((next(&mut state) % symbols) as u8);
        }
    }
    t.truncate(len);
    t
}

/// The LMS suffixes of a text in ascending order.
fn lms_suffixes(t: &[u8]) -> Vec<SaSint> {
    let n = t.len();
    let mut smaller = vec![false; n];
    for i in (0..n - 1).rev() {
        smaller[i] = t[i] < t[i + 1] || (t[i] == t[i + 1] && smaller[i + 1]);
    }
    (1..n).filter(|&i| smaller[i] && !smaller[i - 1]).map(|i| i as SaSint).collect()
}

/// Where the blocks of `k` workers over `n` positions end.
fn block_ends(n: usize, k: usize) -> Vec<usize> {
    let stride = n / k / 16 * 16;
    (0..k).map(|w| if w + 1 < k { (w + 1) * stride } else { n }).collect()
}

#[test]
fn workers_count_and_gather_what_one_worker_does() {
    let n = 70_000;
    let t = text(n, 200, 5);
    let lms = lms_suffixes(&t);
    let mut alone = vec![0; n];
    let mut counted = vec![-5; 2048];
    let m = count_and_gather_lms_suffixes_8u_omp(&t, &mut alone, n as SaSint, &mut counted, 1, &mut []);
    assert_eq!(m as usize, lms.len());
    for threads in [2, 3, 5] {
        let mut state = alloc_thread_state(3).unwrap();
        for s in state.iter_mut() {
            s.count = 77;
            s.last_lms_suffix = -9;
        }
        let k = if threads < 3 { threads as usize } else { 3 };
        let mut sa = vec![0; n + 5];
        let mut buckets = vec![4; 2048];
        assert_eq!(count_and_gather_lms_suffixes_8u_omp(&t, &mut sa, n as SaSint, &mut buckets, threads, &mut state), m);
        assert_eq!(buckets, counted);
        assert_eq!(sa[n - m as usize..n].to_vec(), lms);
        assert_eq!(sa[n..].to_vec(), vec![0; 5]);
        let ends = block_ends(n, k);
        let mut start = 0;
        for w in 0..k {
            let own: Vec<SaSint> = lms.iter().copied().filter(|&p| start <= p as usize && (p as usize) < ends[w]).collect();
            assert_eq!(state[w].position as usize, ends[w]);
            assert_eq!(state[w].m as usize, own.len());
            assert_eq!(state[w].last_lms_suffix, *own.last().unwrap() as isize);
            assert_eq!(state[w].count, 77);
            start = ends[w];
        }
        assert_eq!(state[k - 1].buckets, vec![0; 1024]);
        for w in 0..k {
            let before: usize = state[w].buckets.iter().map(|&c| c as usize).sum();
            assert_eq!(before, n - ends[w]);
        }
        for s in state.iter().skip(k) {
            assert_eq!((s.position, s.m, s.last_lms_suffix), (0, 0, -9));
        }
    }
}

#[test]
fn the_slot_in_front_of_gathered_suffixes_marks_the_end_of_the_scan() {
    let t = text(50, 4, 8);
    let lms = lms_suffixes(&t);
    let mut sa = vec![-7; 50];
    gather_lms_suffixes_8u_omp(&t, &mut sa, 50, 1, &mut []);
    assert_eq!(sa[50 - lms.len()..].to_vec(), lms);
    assert_eq!(sa[49 - lms.len()], 1);
    assert_eq!(sa[..49 - lms.len()].to_vec(), vec![-7; 49 - lms.len()]);
    let mut sa = vec![-7; 50];
    gather_lms_suffixes_8u(&t, &mut sa, 50, 30, 10, 20);
    let own: Vec<SaSint> = lms.iter().copied().filter(|&p| 10 < p && p < 30).collect();
    assert_eq!(sa[31 - own.len()..31].to_vec(), own);
    assert_eq!(sa[30 - own.len()], 10);
    assert_eq!(sa[..30 - own.len()].to_vec(), vec![-7; 30 - own.len()]);
}

/// Sorted suffixes, some of which open a name, with room for their names.
fn named_suffixes(m: usize, n: usize, fs: usize) -> Vec<SaSint> {
    let mut state: u32 = 3;
    let mut sa = vec![0; n + fs];
    for (i, slot) in sa.iter_mut().take(m).enumerate() {
        let p = (2 * ((i * 7919) % m)) as SaSint;
        *slot = if next(&mut state) % 3 != 0 { p | SAINT_MIN } else { p };
    }
    sa
}

#[test]
fn workers_note_how_many_names_open_in_their_blocks() {
    let m = 65_536;
    let n = 2 * m;
    let first = named_suffixes(m, n, 0);
    let mut alone = first.clone();
    let names = renumber_lms_suffixes_8u_omp(&mut alone, m as SaSint, 1, &mut []);
    let mut sa = first.clone();
    let mut state = alloc_thread_state(4).unwrap();
    assert_eq!(renumber_lms_suffixes_8u_omp(&mut sa, m as SaSint, 3, &mut state), names);
    assert_eq!(sa, alone);
    let ends = block_ends(m, 3);
    let mut start = 0;
    for w in 0..3 {
        let opened = first[start..ends[w]].iter().filter(|&&p| p < 0).count();
        assert_eq!(state[w].count as usize, opened);
        assert_eq!((state[w].position, state[w].m), (0, 0));
        start = ends[w];
    }
    assert_eq!(state[3], alloc_thread_state(1).unwrap()[0]);
    let mut distinct = first.clone();
    let mut others = alloc_thread_state(3).unwrap();
    assert_eq!(renumber_distinct_lms_suffixes_32s_4k_omp(&mut distinct, m as SaSint, 3, &mut others), names);
    assert_eq!(others[..3], state[..3]);
    let mut marked = first.clone();
    let mut third = alloc_thread_state(3).unwrap();
    assert_eq!(renumber_and_mark_distinct_lms_suffixes_32s_4k_omp(&mut marked, n as SaSint, m as SaSint, 3, &mut third), names);
    assert_eq!(third[..3], state[..3]);
}

#[test]
fn workers_gather_marked_names_in_blocks_first() {
    let m = 40_000;
    let n = 140_000;
    let fs = 7;
    let mut state: u32 = 9;
    let mut first = vec![0; n + fs];
    for slot in first[m..m + n / 2].iter_mut() {
        if next(&mut state) % 3 == 0 {
            *slot = next(&mut state) as SaSint | SAINT_MIN;
        }
    }
    let expected: Vec<SaSint> = first[m..m + n / 2].iter().filter(|&&c| c < 0).map(|&c| c & SAINT_MAX).collect();
    for threads in [2, 3] {
        let mut sa = first.clone();
        let mut workers = alloc_thread_state(threads).unwrap();
        gather_marked_lms_suffixes_omp(&mut sa, n as SaSint, m as SaSint, fs as SaSint, threads, &mut workers);
        assert_eq!(sa[n + fs - expected.len()..].to_vec(), expected);
        let ends = block_ends(n / 2, threads as usize);
        let mut start = 0;
        for (w, worker) in workers.iter().enumerate() {
            let found = first[m + start..m + ends[w]].iter().filter(|&&c| c < 0).count();
            let end = if w + 1 < threads as usize { m + ends[w] } else { n + fs };
            assert_eq!(worker.count as usize, found);
            assert_eq!(worker.position as usize, end - found);
            start = ends[w];
        }
    }
}

#[test]
fn workers_name_and_gather_what_one_worker_does() {
    let m = 65_600;
    let n = 140_000;
    let first = named_suffixes(m, n, 20);
    let mut alone = first.clone();
    let names = renumber_and_gather_lms_suffixes_omp(&mut alone, n as SaSint, m as SaSint, 20, 1, &mut []);
    let mut sa = first.clone();
    let mut state = alloc_thread_state(2).unwrap();
    assert_eq!(renumber_and_gather_lms_suffixes_omp(&mut sa, n as SaSint, m as SaSint, 20, 2, &mut state), names);
    assert_eq!(sa[n + 20 - m..], alone[n + 20 - m..]);
    assert_eq!(state[0].count + state[1].count, m as isize);
    assert_eq!(state[1].position as usize, n + 20 - state[1].count as usize);
}

/// A text, sorted suffixes and their names, some of which stand alone and are marked.
fn marked_names(m: usize, n: usize, fs: usize) -> (Vec<SaSint>, Vec<SaSint>) {
    let mut state: u32 = 17;
    let t: Vec<SaSint> = (0..n).map(|_| next(&mut state) as SaSint % 50).collect();
    let mut sa = vec![0; n + fs];
    for i in 0..m {
        let p = 2 * ((i * 7919) % m);
        sa[i] = p as SaSint;
        sa[m + p / 2] = if next(&mut state) % 2 == 0 { (i + 1) as SaSint | SAINT_MIN } else { (i + 1) as SaSint };
    }
    (t, sa)
}

#[test]
fn workers_set_apart_the_names_that_one_worker_does() {
    let m = 65_536;
    let n = 2 * m;
    let (t0, s0) = marked_names(m, n, 0);
    let (mut t1, mut s1) = (t0.clone(), s0.clone());
    let f = renumber_unique_and_nonunique_lms_suffixes_32s_omp(&mut t1, &mut s1, m as SaSint, 1, &mut []);
    let (mut t2, mut s2) = (t0.clone(), s0.clone());
    let mut state = alloc_thread_state(3).unwrap();
    assert_eq!(renumber_unique_and_nonunique_lms_suffixes_32s_omp(&mut t2, &mut s2, m as SaSint, 3, &mut state), f);
    assert_eq!((t1, s1), (t2, s2));
    let ends = block_ends(m, 3);
    let mut start = 0;
    for w in 0..3 {
        let unique = (start..ends[w]).filter(|&i| s0[m + s0[i] as usize / 2] < 0).count();
        assert_eq!(state[w].count as usize, unique);
        start = ends[w];
    }
}

#[test]
fn workers_compact_names_in_blocks_first() {
    let m = 66_000;
    let n = 132_000;
    let fs = 300_000;
    let (t0, s0) = marked_names(m, n, fs);
    let (mut t1, mut s1) = (t0.clone(), s0.clone());
    let f = compact_lms_suffixes_32s_omp(&mut t1, &mut s1, n as SaSint, m as SaSint, fs as SaSint, 1, &mut []);
    let (mut t2, mut s2) = (t0.clone(), s0.clone());
    let mut state = alloc_thread_state(2).unwrap();
    assert_eq!(compact_lms_suffixes_32s_omp(&mut t2, &mut s2, n as SaSint, m as SaSint, fs as SaSint, 2, &mut state), f);
    assert_eq!(t1, t2);
    let f = f as usize;
    assert_eq!(s1[m - f..m], s2[m - f..m]);
    assert_eq!(s1[n + fs - m..], s2[n + fs - m..]);
    let ends = block_ends(n / 2, 2);
    let others: isize = (0..2).map(|w| (m + ends[w]) as isize - state[w].count).sum();
    assert_eq!(others as usize, m - f);
    let apart: isize = (0..2).map(|w| (m + n / 2 + ends[w]) as isize - state[w].position).sum();
    assert_eq!(apart as usize, f);
    let mut plain = s0.clone();
    let mut idle = alloc_thread_state(2).unwrap();
    compact_unique_and_nonunique_lms_suffixes_32s_omp(&mut plain, 100, 3, 50, 0, 2, &mut idle);
    assert_eq!(idle, alloc_thread_state(2).unwrap());
}

#[test]
fn workers_note_what_they_merge() {
    let n = 66_000;
    let m = 65_800;
    let mut t: Vec<SaSint> = (0..n).map(|i| i as SaSint % 9).collect();
    for i in [10, 30_000, 65_000] {
        t[i] |= SAINT_MIN;
    }
    let mut sa = vec![0; 2 * n];
    sa[n - m - 1] = 4;
    sa[n - m] = 5;
    sa[n - m + 1] = 6;
    let mut state = alloc_thread_state(2).unwrap();
    merge_unique_lms_suffixes_32s_omp(&mut t, &mut sa, n as SaSint, m as SaSint, 2, &mut state);
    assert_eq!(sa[4..7].to_vec(), vec![10, 30_000, 65_000]);
    assert_eq!((state[0].count, state[1].count), (2, 1));
    assert!(t.iter().all(|&c| c >= 0));
    let (n, m) = (140_000, 66_000);
    let mut slots = vec![1; n];
    for i in [100, 200, 40_000] {
        slots[i] = 0;
    }
    slots[n - m - 1..n - m + 2].copy_from_slice(&[7, 8, 9]);
    let mut state = alloc_thread_state(2).unwrap();
    merge_nonunique_lms_suffixes_32s_omp(&mut slots, n as SaSint, m as SaSint, 0, 2, &mut state);
    assert_eq!((slots[100], slots[200], slots[40_000]), (7, 8, 9));
    assert_eq!((state[0].count, state[1].count), (2, 1));
}

/// A block of suffixes with room behind it, and where the bucket of each kind starts there.
fn block_case(t: &[u8], size: usize, kinds: usize, kind: fn(&[u8], usize) -> usize) -> (Vec<SaSint>, Vec<SaSint>) {
    let mut state: u32 = 21;
    let mut sa = vec![0; 3 * size + 10];
    let mut counts = vec![0; kinds];
    for (i, slot) in sa.iter_mut().take(size).enumerate() {
        let p = 2 + (i * 13) % (t.len() - 2);
        counts[kind(t, p)] += 1;
        *slot = if next(&mut state) % 4 == 0 { p as SaSint | SAINT_MIN } else { p as SaSint };
    }
    let mut starts = vec![0; kinds];
    let mut sum = size as SaSint;
    for c in 0..kinds {
        starts[c] = sum;
        sum += counts[c];
    }
    (sa, starts)
}

#[test]
fn workers_scan_a_naming_block_as_one_worker_does() {
    let t = text(40_000, 250, 31);
    let size = 20_000;
    let (s0, starts) = block_case(&t, size, 512, |t, p| 2 * t[p - 1] as usize + usize::from(t[p - 2] >= t[p - 1]));
    let mut b0 = vec![0; 1536];
    b0[1024..].copy_from_slice(&starts);
    let (mut s1, mut b1) = (s0.clone(), b0.clone());
    let d1 = partial_sorting_scan_left_to_right_8u(&t, &mut s1, &mut b1, 5, 0, size as isize);
    let (mut s2, mut b2) = (s0.clone(), b0.clone());
    let mut state = alloc_thread_state(3).unwrap();
    let d2 = partial_sorting_scan_left_to_right_8u_block_omp(&t, &mut s2, 256, &mut b2, 5, 0, size as isize, 3, &mut state);
    assert_eq!((d1, s1, b1), (d2, s2, b2));
    let ends = block_ends(size, 3);
    let mut start = 0;
    let mut names = 5;
    for w in 0..3 {
        assert_eq!(state[w].count as usize, ends[w] - start);
        assert_eq!(state[w].position, names);
        assert_eq!(state[w].cache[0].index, s0[start]);
        names += s0[start..ends[w]].iter().filter(|&&p| p < 0).count() as isize;
        start = ends[w];
    }
    assert_eq!(d1 as isize, names);
}

#[test]
fn workers_scan_a_naming_block_backward_as_one_worker_does() {
    let t = text(40_000, 250, 33);
    let size = 20_000;
    let (s0, starts) = block_case(&t, size, 512, |t, p| 2 * t[p - 1] as usize + usize::from(t[p - 2] > t[p - 1]));
    let mut b0 = vec![0; 1536];
    for c in 0..512 {
        b0[c] = if c + 1 < 512 { starts[c + 1] } else { starts[c] + size as SaSint };
    }
    let (mut s1, mut b1) = (s0.clone(), b0.clone());
    let d1 = partial_sorting_scan_right_to_left_8u(&t, &mut s1, &mut b1, 5, 0, size as isize);
    let (mut s2, mut b2) = (s0.clone(), b0.clone());
    let mut state = alloc_thread_state(2).unwrap();
    let d2 = partial_sorting_scan_right_to_left_8u_block_omp(&t, &mut s2, 256, &mut b2, 5, 0, size as isize, 2, &mut state);
    assert_eq!((d1, s1, b1), (d2, s2, b2));
    assert_eq!(state[1].position, 5);
    assert_eq!(state[0].position + state[0].count, d1 as isize - marks(&s0[..size / 2]) + 10_000);
}

/// How many entries are marked.
fn marks(s: &[SaSint]) -> isize {
    s.iter().filter(|&&p| p < 0).count() as isize
}

#[test]
fn a_worker_scans_a_final_block_as_a_plain_scan_does() {
    let t = text(40_000, 250, 35);
    let size = 500;
    let (mut s0, starts) = block_case(&t, size, 256, |t, p| t[p - 1] as usize);
    for p in s0.iter_mut().take(size) {
        *p &= SAINT_MAX;
    }
    let (mut s1, mut b1) = (s0.clone(), starts.clone());
    final_sorting_scan_left_to_right_8u(&t, &mut s1, &mut b1, 0, size as isize);
    let (mut s2, mut b2) = (s0.clone(), starts.clone());
    let mut state = alloc_thread_state(2).unwrap();
    final_sorting_scan_left_to_right_8u_block_omp(&t, &mut s2, 256, &mut b2, 0, size as isize, 2, &mut state);
    assert_eq!((s1, &b1), (s2, &b2));
    assert_eq!(state[0].count as usize, size);
    assert_eq!(state[0].buckets[..256], b1[..256]);
    assert_eq!(state[1], alloc_thread_state(1).unwrap()[0]);
    let mut ends = starts.clone();
    for c in 0..256 {
        ends[c] = if c + 1 < 256 { starts[c + 1] } else { starts[c] + size as SaSint };
    }
    let (mut s1, mut b1) = (s0.clone(), ends.clone());
    final_sorting_scan_right_to_left_8u(&t, &mut s1, &mut b1, 0, size as isize);
    let (mut s2, mut b2) = (s0.clone(), ends.clone());
    let mut state = alloc_thread_state(1).unwrap();
    final_sorting_scan_right_to_left_8u_block_omp(&t, &mut s2, 256, &mut b2, 0, size as isize, 2, &mut state);
    assert_eq!((s1, &b1), (s2, &b2));
    assert_eq!(state[0].buckets[..256], b1[..256]);
    assert_ne!(state[0].cache[0], ThreadCache { symbol: 0, index: 0 });
    let mut samples = vec![0; 40_000];
    let (mut s3, mut b3) = (s0.clone(), starts.clone());
    final_bwt_aux_scan_left_to_right_8u_block_omp(&t, &mut s3, 256, 1, &mut samples, &mut b3, 0, size as isize, 2, &mut state);
    assert_eq!(state[0].count as usize, size);
}

/// Sorts the suffixes of a byte text, or transforms it, with `threads` workers in every stage.
fn sort_in_stages(t: &[u8], flags: SaSint, threads: SaSint, state: &mut [ThreadState]) -> (Vec<SaSint>, SaSint) {
    let n = t.len() as SaSint;
    let mut sa = vec![0; t.len()];
    let mut buckets = vec![0; 2048];
    let m = count_and_gather_lms_suffixes_8u_omp(t, &mut sa, n, &mut buckets, threads, state);
    let k = initialize_buckets_start_and_end_8u(&mut buckets, None);
    let front = (n - m) as usize;
    let first = sa[front];
    let left = initialize_buckets_for_lms_suffixes_radix_sort_8u(t, &mut buckets, first);
    sa[..front].fill(0);
    radix_sort_lms_suffixes_8u_omp(t, &mut sa, n, m, flags, &mut buckets, threads, state);
    sa[front..].fill(0);
    initialize_buckets_for_partial_sorting_8u(t, &mut buckets, first, left);
    induce_partial_order_8u_omp(t, &mut sa, n, k, flags, &mut buckets, first, left, threads, state);
    let names = renumber_and_gather_lms_suffixes_omp(&mut sa, n, m, 0, threads, state);
    if names < m {
        let mut reduced = sa[front..].to_vec();
        assert_eq!(libsais_main_32s_entry(&mut reduced, &mut sa, m, names, n - 2 * m, threads, state), 0);
        gather_lms_suffixes_8u_omp(t, &mut sa, n, threads, state);
        reconstruct_lms_suffixes_omp(&mut sa, n, m, threads);
    }
    place_lms_suffixes_interval_8u(&mut sa, n, m, flags, &mut buckets);
    let index = induce_final_order_8u_omp(t, &mut sa, n, k, flags, 0, None, &mut buckets, threads, state);
    (sa, index)
}

#[test]
fn stages_with_several_workers_sort_a_long_text() {
    let t = text(210_000, 256, 41);
    let mut expected = vec![0; t.len()];
    assert_eq!(libsais(&t, &mut expected, 0, None), 0);
    let (alone, _) = sort_in_stages(&t, 0, 1, &mut []);
    assert_eq!(alone, expected);
    for threads in [2, 3] {
        let mut state = alloc_thread_state(threads).unwrap();
        let (sa, _) = sort_in_stages(&t, 0, threads, &mut state);
        assert_eq!(sa, expected);
    }
}

#[test]
fn stages_with_several_workers_transform_a_long_text() {
    let t = text(80_000, 256, 43);
    let mut u = vec![0; t.len()];
    let primary = libsais_bwt(&t, &mut u, &mut vec![0; t.len()], 0, None);
    let mut state = alloc_thread_state(2).unwrap();
    let (a, index) = sort_in_stages(&t, LIBSAIS_FLAGS_BWT, 2, &mut state);
    assert_eq!(index + 1, primary);
    for (j, &c) in a.iter().enumerate() {
        if j as SaSint > index {
            assert_eq!(c as u8, u[j]);
        } else if (j as SaSint) < index {
            assert_eq!(c as u8, u[j + 1]);
        }
    }
}

#[test]
fn integer_texts_are_scanned_in_parts_with_a_long_cache() {
    let n = 70_000;
    let mut seed: u32 = 51;
    let t: Vec<SaSint> = (0..n).map(|_| next(&mut seed) as SaSint % 300).collect();
    let mut lms: Vec<usize> = Vec::new();
    let mut smaller = vec![false; n];
    for i in (0..n - 1).rev() {
        smaller[i] = t[i] < t[i + 1] || (t[i] == t[i + 1] && smaller[i + 1]);
    }
    for i in 1..n {
        if smaller[i] && !smaller[i - 1] {
            lms.push(i);
        }
    }
    lms.sort_by(|&a, &b| t[a..].cmp(&t[b..]));
    let mut ends = vec![0; 300];
    for &c in &t {
        ends[c as usize] += 1;
    }
    for c in 1..300 {
        ends[c] += ends[c - 1];
    }
    let mut placed = vec![0; n];
    for &p in lms.iter().rev() {
        let c = t[p] as usize;
        ends[c] -= 1;
        placed[ends[c]] = p as SaSint;
    }
    let mut alone = placed.clone();
    induce_final_order_32s_1k(&t, &mut alone, n as SaSint, 300, &mut vec![0; 300], 1, &mut []);
    let mut expected: Vec<usize> = (0..n).collect();
    expected.sort_by(|&a, &b| t[a..].cmp(&t[b..]));
    assert_eq!(alone, expected.iter().map(|&p| p as SaSint).collect::<Vec<SaSint>>());
    let mut state = alloc_thread_state(1).unwrap();
    state[0].cache = vec![ThreadCache { symbol: 0, index: 0 }; 150_000];
    let mut sa = placed.clone();
    induce_final_order_32s_1k(&t, &mut sa, n as SaSint, 300, &mut vec![0; 300], 2, &mut state);
    assert_eq!(sa, alone);
}
