use libsais::{
    create_ctx, create_ctx_main, libsais, libsais_bwt, libsais_bwt_aux, libsais_bwt_aux_ctx,
    libsais_bwt_ctx, libsais_bwt_omp, libsais_ctx, libsais_gsa, libsais_int, libsais_lcp,
    libsais_lcp_omp, libsais_omp, libsais_plcp, libsais_plcp_gsa, libsais_plcp_gsa_omp,
    libsais_plcp_int, libsais_plcp_int_omp, libsais_plcp_omp, libsais_unbwt, libsais_unbwt_aux,
    libsais_unbwt_aux_ctx, libsais_unbwt_ctx, libsais_unbwt_omp, unbwt_create_ctx,
    unbwt_create_ctx_main,
};

/// Texts of all shapes: short, repeated, sorted, and of every byte.
fn texts() -> Vec<Vec<u8>> {
    let mut all: Vec<Vec<u8>> = vec![
        b"ab".to_vec(),
        b"ba".to_vec(),
        b"aa".to_vec(),
        b"aaa".to_vec(),
        b"abracadabra".to_vec(),
        b"mississippi".to_vec(),
        b"zyxwvutsrqponmlkjihgfedcba".to_vec(),
        b"abcabcabcabcabcabc".to_vec(),
        vec![0; 17],
        vec![255, 0, 255, 0, 0, 255],
        (0..=255).collect(),
    ];
    let mut state: u32 = 7;
    for len in [30usize, 101, 500, 1000] {
        let mut t = Vec::new();
        for _ in 0..len {
            state = state.wrapping_mul(1_664_525).wrapping_add(1_013_904_223);
            t.push((state >> 24) as u8 % 5);
        }
        all.push(t);
    }
    all
}

fn sorted_suffixes(t: &[u8]) -> Vec<i32> {
    let mut sa: Vec<i32> = (0..t.len() as i32).collect();
    sa.sort_by(|&a, &b| t[a as usize..].cmp(&t[b as usize..]));
    sa
}

fn shared(a: &[u8], b: &[u8]) -> i32 {
    a.iter().zip(b).take_while(|(x, y)| x == y).count() as i32
}

#[test]
fn every_entry_point_sorts_the_same_way() {
    for t in texts() {
        let n = t.len();
        let expected = sorted_suffixes(&t);
        let mut freq = vec![0; 256];
        let mut sa = vec![0; n];
        assert_eq!(libsais(&t, &mut sa, 0, Some(&mut freq)), 0);
        assert_eq!(sa, expected);
        assert_eq!(freq.iter().sum::<i32>(), n as i32);
        for c in 0..256 {
            assert_eq!(freq[c], t.iter().filter(|&&x| x as usize == c).count() as i32);
        }
        let mut sa = vec![-1; n + 9];
        assert_eq!(libsais_omp(&t, &mut sa, 5, None, 2), 0);
        assert_eq!(sa[..n], expected[..]);
        assert_eq!(sa[n + 5..], [-1; 4]);
        let mut ctx = create_ctx_main(2).expect("context");
        let mut sa = vec![0; n];
        assert_eq!(libsais_ctx(&mut ctx, &t, &mut sa, 0, None), 0);
        assert_eq!(sa, expected);
        let mut wide: Vec<i32> = t.iter().map(|&c| c as i32).collect();
        let mut sa = vec![0; n];
        assert_eq!(libsais_int(&mut wide, &mut sa, 256, 0), 0);
        assert_eq!(sa, expected);
    }
}

#[test]
fn known_transforms() {
    let mut u = vec![0u8; 6];
    let mut a = vec![0; 6];
    assert_eq!(libsais_bwt(b"banana", &mut u, &mut a, 0, None), 4);
    assert_eq!(&u, b"annbaa");
    let mut u = vec![0u8; 11];
    let mut a = vec![0; 11];
    assert_eq!(libsais_bwt(b"abracadabra", &mut u, &mut a, 0, None), 3);
    assert_eq!(&u, b"ardrcaaaabb");
    let mut i = vec![0; 3];
    assert_eq!(libsais_bwt_aux(b"abracadabra", &mut u, &mut a, 0, None, 4, &mut i), 0);
    assert_eq!(&u, b"ardrcaaaabb");
    assert_eq!(i, vec![3, 8, 6]);
}

#[test]
fn transforms_permute_and_round_trip() {
    for t in texts() {
        let n = t.len();
        let mut u = vec![0u8; n];
        let mut a = vec![0; n];
        let index = libsais_bwt(&t, &mut u, &mut a, 0, None);
        assert!(index > 0);
        let mut sorted_t = t.clone();
        let mut sorted_u = u.clone();
        sorted_t.sort();
        sorted_u.sort();
        assert_eq!(sorted_u, sorted_t);
        let mut other = vec![0u8; n];
        assert_eq!(libsais_bwt_omp(&t, &mut other, &mut a, 0, None, 3), index);
        assert_eq!(other, u);
        let mut ctx = create_ctx().expect("context");
        let mut other = vec![0u8; n];
        assert_eq!(libsais_bwt_ctx(&mut ctx, &t, &mut other, &mut a, 0, None), index);
        assert_eq!(other, u);
        let mut back = vec![0u8; n];
        assert_eq!(libsais_unbwt(&u, &mut back, &mut a, None, index), 0);
        assert_eq!(back, t);
        let mut back = vec![0u8; n];
        let mut held = unbwt_create_ctx().expect("context");
        assert_eq!(libsais_unbwt_ctx(&mut held, &u, &mut back, &mut a, None, index), 0);
        assert_eq!(back, t);
        let mut back = vec![0u8; n];
        assert_eq!(libsais_unbwt_omp(&u, &mut back, &mut a, None, index, 2), 0);
        assert_eq!(back, t);
    }
}

#[test]
fn samples_are_ranks_and_invert() {
    for t in texts() {
        let n = t.len();
        let sa = sorted_suffixes(&t);
        for r in [2i32, 4, 64] {
            let count = (n - 1) / r as usize + 1;
            let mut u = vec![0u8; n];
            let mut a = vec![0; n];
            let mut freq = vec![0; 256];
            let mut samples = vec![-5; count + 1];
            assert_eq!(libsais_bwt_aux(&t, &mut u, &mut a, 0, Some(&mut freq), r, &mut samples), 0);
            assert_eq!(samples[count], -5);
            for k in 0..count {
                assert_eq!(sa[samples[k] as usize - 1], k as i32 * r);
            }
            let mut back = vec![0u8; n];
            assert_eq!(libsais_unbwt_aux(&u, &mut back, &mut a, Some(&freq), r, &samples), 0);
            assert_eq!(back, t);
            let mut back = vec![0u8; n];
            let mut held = unbwt_create_ctx_main(2).expect("context");
            assert_eq!(libsais_unbwt_aux_ctx(&mut held, &u, &mut back, &mut a, None, r, &samples), 0);
            assert_eq!(back, t);
            let mut ctx = create_ctx().expect("context");
            let mut other = vec![-5; count + 1];
            assert_eq!(libsais_bwt_aux_ctx(&mut ctx, &t, &mut u, &mut a, 0, None, r, &mut other), 0);
            assert_eq!(other, samples);
        }
    }
}

#[test]
fn different_texts_have_different_transforms() {
    let mut seen: Vec<(Vec<u8>, i32)> = Vec::new();
    for code in 0..81 {
        let t: Vec<u8> = (0..4).map(|i| b'a' + ((code / 3i32.pow(i)) % 3) as u8).collect();
        let mut u = vec![0u8; 4];
        let mut a = vec![0; 4];
        let index = libsais_bwt(&t, &mut u, &mut a, 0, None);
        assert!(!seen.contains(&(u.clone(), index)));
        seen.push((u, index));
    }
}

#[test]
fn prefix_lengths_match_and_shrink_slowly() {
    for t in texts() {
        let n = t.len();
        let sa = sorted_suffixes(&t);
        let mut plcp = vec![-1; n];
        assert_eq!(libsais_plcp(&t, &sa, &mut plcp), 0);
        for k in 0..n {
            let s = sa[k] as usize;
            let expected = if k == 0 { 0 } else { shared(&t[s..], &t[sa[k - 1] as usize..]) };
            assert_eq!(plcp[s], expected);
        }
        for s in 1..n {
            assert!(plcp[s] >= plcp[s - 1] - 1);
        }
        let mut again = vec![-1; n];
        assert_eq!(libsais_plcp_omp(&t, &sa, &mut again, 3), 0);
        assert_eq!(again, plcp);
        let wide: Vec<i32> = t.iter().map(|&c| c as i32).collect();
        assert_eq!(libsais_plcp_int(&wide, &sa, &mut again), 0);
        assert_eq!(again, plcp);
        assert_eq!(libsais_plcp_int_omp(&wide, &sa, &mut again, 2), 0);
        assert_eq!(again, plcp);
        let mut lcp = vec![-1; n];
        assert_eq!(libsais_lcp(&plcp, &sa, &mut lcp), 0);
        for k in 1..n {
            assert_eq!(lcp[k], shared(&t[sa[k] as usize..], &t[sa[k - 1] as usize..]));
        }
        assert_eq!(lcp[0], 0);
        let mut again = vec![-1; n];
        assert_eq!(libsais_lcp_omp(&plcp, &sa, &mut again, 4), 0);
        assert_eq!(again, lcp);
    }
}

#[test]
fn prefix_lengths_of_separated_texts_end_at_separators() {
    let t = b"abab\0ab\0bab\0abab\0";
    let n = t.len();
    let mut sa = vec![0; n];
    assert_eq!(libsais_gsa(t, &mut sa, 0, None), 0);
    let mut plcp = vec![-1; n];
    assert_eq!(libsais_plcp_gsa(t, &sa, &mut plcp), 0);
    let piece = |s: usize| {
        let end = s + t[s..].iter().position(|&c| c == 0).expect("closed");
        &t[s..end]
    };
    for k in 0..n {
        let s = sa[k] as usize;
        let expected = if k == 0 { 0 } else { shared(piece(s), piece(sa[k - 1] as usize)) };
        assert_eq!(plcp[s], expected);
        if k > 0 {
            let p = sa[k - 1] as usize;
            assert!((piece(p), p) < (piece(s), s));
        }
    }
    let mut again = vec![-1; n];
    assert_eq!(libsais_plcp_gsa_omp(t, &sa, &mut again, 2), 0);
    assert_eq!(again, plcp);
}
