use libsais::{
    libsais, libsais_bwt, libsais_bwt_aux_omp, libsais_gsa, libsais_int, libsais_omp,
    libsais_unbwt, libsais_unbwt_aux_omp, libsais_unbwt_omp,
};

/// A sequence of pseudo-random numbers.
fn next(state: &mut u32) -> u32 {
    *state = state.wrapping_mul(1_664_525).wrapping_add(1_013_904_223);
    *state >> 16
}

/// A text over `symbols` symbols with long repeats.
fn repetitive_text(len: usize, symbols: u32, seed: u32) -> Vec<u8> {
    let mut state: u32 = seed;
    let mut t: Vec<u8> = Vec::with_capacity(len);
    while t.len() < len {
        if t.len() > 100 && next(&mut state) % 4 == 0 {
            let from = next(&mut state) as usize % (t.len() - 60);
            for i in from..from + 60 {
                let c = t[i];
                t.push(c);
            }
        } else {
            t.push((next(&mut state) % symbols) as u8 + 1);
        }
    }
    t.truncate(len);
    t
}

/// Checks in linear time that `sa` lists the suffixes of `t` in their order.
fn assert_sorted(t: &[i32], sa: &[i32]) {
    let n = t.len();
    assert_eq!(sa.len(), n);
    let mut rank = vec![-1i32; n + 1];
    for (k, &s) in sa.iter().enumerate() {
        assert_eq!(rank[s as usize], -1);
        rank[s as usize] = k as i32;
    }
    for k in 1..n {
        let a = sa[k - 1] as usize;
        let b = sa[k] as usize;
        assert!(t[a] < t[b] || (t[a] == t[b] && rank[a + 1] < rank[b + 1]));
    }
}

#[test]
fn sorts_a_large_byte_text() {
    let t = repetitive_text(300_000, 20, 1);
    let mut sa = vec![0; t.len()];
    assert_eq!(libsais(&t, &mut sa, 0, None), 0);
    let keys: Vec<i32> = t.iter().map(|&c| c as i32).collect();
    assert_sorted(&keys, &sa);
}

#[test]
fn sorts_a_large_byte_text_with_spare_slots_and_workers() {
    let t = repetitive_text(300_000, 3, 2);
    let mut sa = vec![0; t.len() + 5000];
    assert_eq!(libsais_omp(&t, &mut sa, 5000, None, 4), 0);
    let keys: Vec<i32> = t.iter().map(|&c| c as i32).collect();
    assert_sorted(&keys, &sa[..t.len()]);
}

#[test]
fn sorts_a_periodic_byte_text() {
    let t: Vec<u8> = (0..300_000usize).map(|i| b"abracadabra"[i % 11]).collect();
    let mut sa = vec![0; t.len()];
    assert_eq!(libsais(&t, &mut sa, 0, None), 0);
    let keys: Vec<i32> = t.iter().map(|&c| c as i32).collect();
    assert_sorted(&keys, &sa);
}

#[test]
fn sorts_large_separated_texts() {
    let mut t = repetitive_text(300_000, 20, 3);
    let mut i = 37;
    while i < t.len() {
        t[i] = 0;
        i += 41;
    }
    let last = t.len() - 1;
    t[last] = 0;
    if t[last - 1] == 0 {
        t[last - 1] = 1;
    }
    let mut sa = vec![0; t.len()];
    assert_eq!(libsais_gsa(&t, &mut sa, 0, None), 0);
    let n = t.len() as i32;
    let keys: Vec<i32> =
        t.iter().enumerate().map(|(i, &c)| if c == 0 { i as i32 - n } else { c as i32 }).collect();
    assert_sorted(&keys, &sa);
}

fn assert_sorts_integers(len: usize, k: i32, fs: i32, seed: u32) {
    let bytes = repetitive_text(len, 200, seed);
    let mut state = seed;
    let mut t: Vec<i32> = Vec::with_capacity(len);
    for (i, &c) in bytes.iter().enumerate() {
        let wide = if i % 1000 == 7 { next(&mut state) as i32 % (k / 200) } else { 0 };
        t.push(c as i32 - 1 + wide * 200);
    }
    let before = t.clone();
    let mut sa = vec![0; len + fs as usize];
    assert_eq!(libsais_int(&mut t, &mut sa, k, fs), 0);
    assert_eq!(t, before);
    assert_sorted(&t, &sa[..len]);
}

#[test]
fn sorts_large_integer_texts_with_few_symbols() {
    assert_sorts_integers(200_000, 200, 0, 4);
}

#[test]
fn sorts_large_integer_texts_with_more_symbols() {
    assert_sorts_integers(200_000, 400, 0, 5);
}

#[test]
fn sorts_large_integer_texts_with_many_symbols() {
    assert_sorts_integers(200_000, 800, 0, 6);
}

#[test]
fn sorts_large_integer_texts_with_very_many_symbols() {
    assert_sorts_integers(200_000, 20_000, 0, 7);
}

#[test]
fn sorts_large_integer_texts_with_spare_slots() {
    assert_sorts_integers(200_000, 20_000, 130_000, 8);
    assert_sorts_integers(200_000, 20_000, 90_000, 9);
    assert_sorts_integers(200_000, 20_000, 50_000, 10);
}

#[test]
fn large_transform_round_trips() {
    let t = repetitive_text(300_001, 20, 11);
    let n = t.len();
    let mut u = vec![0u8; n];
    let mut a = vec![0i32; n + 1];
    let index = libsais_bwt(&t, &mut u, &mut a, 0, None);
    assert!(index > 0);
    let mut back = vec![0u8; n];
    assert_eq!(libsais_unbwt(&u, &mut back, &mut a, None, index), 0);
    assert_eq!(back, t);
    let mut back = vec![0u8; n];
    assert_eq!(libsais_unbwt_omp(&u, &mut back, &mut a, None, index, 3), 0);
    assert_eq!(back, t);
}

#[test]
fn large_sampled_transform_round_trips() {
    let t = repetitive_text(300_000, 60, 12);
    let n = t.len();
    let r = 4096;
    let mut u = vec![0u8; n];
    let mut a = vec![0i32; n + 1];
    let mut freq = vec![0i32; 256];
    let mut samples = vec![0i32; (n - 1) / r as usize + 1];
    assert_eq!(libsais_bwt_aux_omp(&t, &mut u, &mut a, 0, Some(&mut freq), r, &mut samples, 2), 0);
    for threads in [1, 2, 5] {
        let mut back = vec![0u8; n];
        assert_eq!(libsais_unbwt_aux_omp(&u, &mut back, &mut a, Some(&freq), r, &samples, threads), 0);
        assert_eq!(back, t);
    }
}
