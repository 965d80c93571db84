use libsais::{
    create_ctx, libsais, libsais_bwt, libsais_bwt_aux, libsais_bwt_aux_ctx, libsais_bwt_aux_omp,
    libsais_bwt_ctx, libsais_bwt_omp, libsais_ctx, libsais_gsa, libsais_gsa_ctx,
    libsais_gsa_omp, libsais_int, libsais_int_omp, libsais_lcp, libsais_lcp_omp, libsais_omp,
    libsais_plcp, libsais_plcp_gsa, libsais_plcp_gsa_omp, libsais_plcp_int,
    libsais_plcp_int_omp, libsais_plcp_omp, libsais_unbwt, libsais_unbwt_aux, libsais_unbwt_omp,
};

#[test]
fn sorting_refuses_arguments_that_do_not_fit() {
    let t = b"banana";
    let mut sa = vec![7; 6];
    let mut short = vec![3; 255];
    assert_eq!(libsais(t, &mut sa, -1, None), -1);
    assert_eq!(libsais(t, &mut sa, 1, None), -1);
    assert_eq!(libsais(t, &mut sa[..5], 0, None), -1);
    assert_eq!(libsais(t, &mut sa, 0, Some(&mut short)), -1);
    assert_eq!(libsais_omp(t, &mut sa, 0, None, -1), -1);
    assert_eq!(libsais_omp(t, &mut sa, 0, Some(&mut short), 2), -1);
    assert_eq!(sa, vec![7; 6]);
    assert_eq!(short, vec![3; 255]);
}

#[test]
fn sorting_short_texts_needs_no_order() {
    let mut freq = vec![9; 257];
    let mut sa = vec![5; 2];
    assert_eq!(libsais(b"", &mut sa, 0, Some(&mut freq)), 0);
    assert_eq!(freq[..256], vec![0; 256]);
    assert_eq!(freq[256], 9);
    assert_eq!(sa, vec![5, 5]);
    assert_eq!(libsais(b"x", &mut sa, 1, Some(&mut freq)), 0);
    assert_eq!(sa, vec![0, 5]);
    assert_eq!(freq[b'x' as usize], 1);
    assert_eq!(freq.iter().take(256).sum::<i32>(), 1);
}

#[test]
fn sorting_integers_refuses_arguments_that_do_not_fit() {
    let mut t = vec![3, 1, 2];
    let mut sa = vec![7; 3];
    assert_eq!(libsais_int(&mut t, &mut sa, 4, -1), -1);
    assert_eq!(libsais_int(&mut t, &mut sa, 4, 1), -1);
    assert_eq!(libsais_int_omp(&mut t, &mut sa, 4, 0, -1), -1);
    assert_eq!(sa, vec![7; 3]);
    assert_eq!(libsais_int_omp(&mut t, &mut sa, 4, 0, 3), 0);
    assert_eq!(sa, vec![1, 2, 0]);
    assert_eq!(t, vec![3, 1, 2]);
}

#[test]
fn separated_texts_are_closed_and_not_empty() {
    let mut sa = vec![7; 8];
    assert_eq!(libsais_gsa(b"ab\0b", &mut sa, 0, None), -1);
    assert_eq!(libsais_gsa(b"ab\0\0b\0", &mut sa, 0, None), -1);
    assert_eq!(libsais_gsa(b"\0ab\0", &mut sa, 0, None), -1);
    assert_eq!(libsais_gsa(b"ab\0\0", &mut sa, 0, None), -1);
    assert_eq!(libsais_gsa_omp(b"ab\0b", &mut sa, 0, None, 2), -1);
    assert_eq!(libsais_gsa_omp(b"ab\0", &mut sa, 0, None, -2), -1);
    assert_eq!(libsais_gsa(b"\0", &mut sa, 0, None), 0);
    assert_eq!(sa[0], 0);
}

#[test]
fn separated_texts_are_sorted_one_by_one() {
    let t = b"ab\0b\0ab\0";
    let mut sa = vec![0; t.len()];
    let mut freq = vec![0; 256];
    assert_eq!(libsais_gsa(t, &mut sa, 0, Some(&mut freq)), 0);
    assert_eq!(sa, vec![2, 4, 7, 0, 5, 1, 3, 6]);
    assert_eq!(freq[0], 3);
    let mut again = vec![0; t.len() + 4];
    assert_eq!(libsais_gsa_omp(t, &mut again, 4, None, 2), 0);
    assert_eq!(again[..t.len()], sa[..]);
    let mut ctx = create_ctx().expect("context");
    let mut held = vec![0; t.len()];
    assert_eq!(libsais_gsa_ctx(&mut ctx, t, &mut held, 0, None), 0);
    assert_eq!(held, sa);
}

#[test]
fn a_context_without_buckets_is_refused() {
    let mut ctx = create_ctx().expect("context");
    ctx.buckets.truncate(5);
    let t = b"banana";
    let mut sa = vec![7; 6];
    let mut u = vec![1u8; 6];
    let mut i = vec![4; 3];
    assert_eq!(libsais_ctx(&mut ctx, t, &mut sa, 0, None), -2);
    assert_eq!(libsais_gsa_ctx(&mut ctx, b"ab\0", &mut sa, 0, None), -2);
    assert_eq!(libsais_bwt_ctx(&mut ctx, t, &mut u, &mut sa, 0, None), -2);
    assert_eq!(libsais_bwt_aux_ctx(&mut ctx, t, &mut u, &mut sa, 0, None, 2, &mut i), -2);
    assert_eq!(sa, vec![7; 6]);
    assert_eq!(u, vec![1u8; 6]);
    assert_eq!(i, vec![4; 3]);
    assert_eq!(libsais_ctx(&mut ctx, b"b", &mut sa, 0, None), 0);
    assert_eq!(sa[0], 0);
}

#[test]
fn transforming_refuses_arguments_that_do_not_fit() {
    let t = b"banana";
    let mut u = vec![1u8; 6];
    let mut a = vec![7; 6];
    let mut short = vec![3; 255];
    assert_eq!(libsais_bwt(t, &mut u, &mut a, -1, None), -1);
    assert_eq!(libsais_bwt(t, &mut u[..5], &mut a, 0, None), -1);
    assert_eq!(libsais_bwt(t, &mut u, &mut a[..5], 0, None), -1);
    assert_eq!(libsais_bwt(t, &mut u, &mut a, 0, Some(&mut short)), -1);
    assert_eq!(libsais_bwt_omp(t, &mut u, &mut a, 0, None, -1), -1);
    let mut i = vec![4; 3];
    assert_eq!(libsais_bwt_aux(t, &mut u, &mut a, 0, None, 1, &mut i), -1);
    assert_eq!(libsais_bwt_aux(t, &mut u, &mut a, 0, None, 3, &mut i), -1);
    assert_eq!(libsais_bwt_aux(t, &mut u, &mut a, 0, None, 2, &mut i[..2]), -1);
    assert_eq!(libsais_bwt_aux(t, &mut u, &mut a, 1, None, 2, &mut i), -1);
    assert_eq!(libsais_bwt_aux_omp(t, &mut u, &mut a, 0, None, 2, &mut i, -1), -1);
    assert_eq!(u, vec![1u8; 6]);
    assert_eq!(a, vec![7; 6]);
    assert_eq!(i, vec![4; 3]);
}

#[test]
fn transforming_short_texts_copies_them() {
    let mut u = vec![1u8; 2];
    let mut a = vec![7; 2];
    let mut i = vec![4; 2];
    assert_eq!(libsais_bwt(b"", &mut u, &mut a, 0, None), 0);
    assert_eq!(libsais_bwt(b"q", &mut u, &mut a, 0, None), 1);
    assert_eq!(u, vec![b'q', 1]);
    assert_eq!(libsais_bwt_aux(b"", &mut u, &mut a, 0, None, 2, &mut i), 0);
    assert_eq!(i, vec![0, 4]);
    assert_eq!(libsais_bwt_aux(b"z", &mut u, &mut a, 0, None, 2, &mut i), 0);
    assert_eq!(i, vec![1, 4]);
    assert_eq!(u, vec![b'z', 1]);
}

#[test]
fn inverting_refuses_arguments_that_do_not_fit() {
    let t = b"annbaa";
    let mut u = vec![1u8; 6];
    let mut a = vec![7; 6];
    let short = vec![3; 255];
    assert_eq!(libsais_unbwt(t, &mut u, &mut a, None, 0), -1);
    assert_eq!(libsais_unbwt(t, &mut u, &mut a, None, 7), -1);
    assert_eq!(libsais_unbwt(t, &mut u[..5], &mut a, None, 4), -1);
    assert_eq!(libsais_unbwt(t, &mut u, &mut a[..5], None, 4), -1);
    assert_eq!(libsais_unbwt(t, &mut u, &mut a, Some(&short), 4), -1);
    assert_eq!(libsais_unbwt_omp(t, &mut u, &mut a, None, 4, -1), -1);
    assert_eq!(libsais_unbwt_aux(t, &mut u, &mut a, None, 3, &[4, 1]), -1);
    assert_eq!(libsais_unbwt_aux(t, &mut u, &mut a, None, 2, &[4, 1]), -1);
    assert_eq!(libsais_unbwt(b"q", &mut u, &mut a, None, 0), -1);
    assert_eq!(u, vec![1u8; 6]);
    assert_eq!(a, vec![7; 6]);
    assert_eq!(libsais_unbwt(b"", &mut u, &mut a, None, 0), 0);
    assert_eq!(libsais_unbwt(b"q", &mut u, &mut a, None, 1), 0);
    assert_eq!(u[0], b'q');
}

#[test]
fn prefix_lengths_need_arrays_of_one_length() {
    let t = b"banana";
    let sa = vec![5, 3, 1, 0, 4, 2];
    let mut plcp = vec![9; 6];
    assert_eq!(libsais_plcp(t, &sa[..5], &mut plcp), -1);
    assert_eq!(libsais_plcp(t, &sa, &mut plcp[..5]), -1);
    assert_eq!(libsais_plcp_omp(t, &sa, &mut plcp, -1), -1);
    assert_eq!(libsais_plcp_gsa(t, &sa, &mut plcp), -1);
    assert_eq!(libsais_plcp_gsa_omp(b"ab\0", &sa[..3], &mut plcp[..3], -1), -1);
    assert_eq!(libsais_plcp_int(&[1, 2], &sa, &mut plcp), -1);
    assert_eq!(libsais_plcp_int_omp(&[2, 1], &[1, 0], &mut plcp[..2], -1), -1);
    let p = vec![0, 3, 2, 1, 0, 0];
    assert_eq!(libsais_lcp(&p, &sa[..5], &mut plcp), -1);
    assert_eq!(libsais_lcp_omp(&p, &sa, &mut plcp, -1), -1);
    assert_eq!(plcp, vec![9; 6]);
    assert_eq!(libsais_plcp(b"", &[], &mut []), 0);
    assert_eq!(libsais_plcp(b"b", &[0], &mut plcp[..1]), 0);
    assert_eq!(plcp[0], 0);
}
