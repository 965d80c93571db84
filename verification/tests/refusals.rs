use libsais::{
    alloc_thread_state, count_and_gather_lms_suffixes_8u_omp, create_ctx, create_ctx_main, create_ctx_omp, libsais_bwt, libsais_bwt_aux_ctx,
    libsais_bwt_ctx, libsais_ctx, libsais_gsa, libsais_gsa_ctx, libsais_gsa_omp, libsais_main_8u, libsais_main_ctx,
    libsais_unbwt_aux_ctx, libsais_unbwt_ctx, libsais_unbwt_omp, unbwt_create_ctx, unbwt_create_ctx_main,
    unbwt_create_ctx_omp, LIBSAIS_FLAGS_GSA,
};

#[test]
fn a_refused_request_leaves_the_context_as_it_was() {
    let mut ctx = create_ctx_main(2).expect("context");
    ctx.buckets[3] = 9;
    let before = ctx.clone();
    let mut sa = vec![0; 2];
    let mut u = vec![0u8; 2];
    assert_eq!(libsais_ctx(&mut ctx, b"banana", &mut sa, 0, None), -1);
    assert_eq!(libsais_gsa_ctx(&mut ctx, b"banana", &mut sa, 0, None), -1);
    assert_eq!(libsais_bwt_ctx(&mut ctx, b"banana", &mut u, &mut sa, 0, None), -1);
    assert_eq!(libsais_bwt_aux_ctx(&mut ctx, b"banana", &mut u, &mut sa, 0, None, 3, &mut []), -1);
    assert_eq!(ctx, before);
    ctx.buckets.truncate(100);
    let before = ctx.clone();
    let mut sa = vec![5; 6];
    let mut u = vec![7u8; 6];
    assert_eq!(libsais_ctx(&mut ctx, b"banana", &mut sa, 0, None), -2);
    assert_eq!(libsais_bwt_ctx(&mut ctx, b"banana", &mut u, &mut sa, 0, None), -2);
    assert_eq!(ctx, before);
    assert_eq!(libsais_main_ctx(&mut ctx, b"banana", &mut [], 0, 0), -2);
    assert_eq!(libsais_main_ctx(&mut ctx, b"", &mut sa, 0, 0), -2);
    assert_eq!(ctx, before);
    assert_eq!(sa, vec![5; 6]);
}

#[test]
fn a_refused_inversion_leaves_the_context_as_it_was() {
    let mut ctx = unbwt_create_ctx_main(2).expect("context");
    ctx.bucket2[7] = 1;
    let before = ctx.clone();
    let mut u = vec![0u8; 6];
    let mut a = vec![0; 7];
    assert_eq!(libsais_unbwt_ctx(&mut ctx, b"annbaa", &mut u, &mut a, None, 0), -1);
    assert_eq!(libsais_unbwt_aux_ctx(&mut ctx, b"annbaa", &mut u, &mut a, None, 3, &[4, 0, 0]), -1);
    assert_eq!(libsais_unbwt_ctx(&mut ctx, b"a", &mut u, &mut a, None, 1), 0);
    assert_eq!(ctx, before);
    assert_eq!(libsais_unbwt_ctx(&mut ctx, b"annbaa", &mut u, &mut a, None, 4), 0);
    assert_eq!(&u, b"banana");
}

#[test]
fn an_ill_separated_text_has_its_suffixes_gathered_before_it_is_refused() {
    let t = b"banana\0band\0\0can\0".to_vec();
    let n = t.len();
    let mut gathered = vec![-3; n];
    let mut buckets = vec![0; 2048];
    count_and_gather_lms_suffixes_8u_omp(&t, &mut gathered, n as i32, &mut buckets, 1, &mut []);
    assert_ne!(gathered, vec![-3; n]);
    let mut sa = vec![-3; n];
    assert_eq!(libsais_gsa(&t, &mut sa, 0, None), -1);
    assert_eq!(sa, gathered);
    let mut sa = vec![-3; n + 2];
    assert_eq!(libsais_gsa_omp(&t, &mut sa, 2, None, 2), -1);
    assert_eq!(sa[..n], gathered[..]);
    assert_eq!(sa[n..].to_vec(), vec![-3; 2]);
    let mut ctx = create_ctx().expect("context");
    let mut sa = vec![-3; n];
    assert_eq!(libsais_gsa_ctx(&mut ctx, &t, &mut sa, 0, None), -1);
    assert_eq!(sa, gathered);
    let mut sa = vec![-3; n];
    assert_eq!(libsais_main_8u(&t, &mut sa, &mut vec![0; 2048], LIBSAIS_FLAGS_GSA, 0, 1, &mut []), -1);
    assert_eq!(sa, gathered);
}

#[test]
fn several_workers_gather_the_suffixes_of_a_long_text_before_it_is_refused() {
    let n = 70_000;
    let mut state: u32 = 77;
    let mut t: Vec<u8> = Vec::with_capacity(n);
    for _ in 0..n {
        state = state.wrapping_mul(1_664_525).wrapping_add(1_013_904_223);
        t.push((state >> 24) as u8);
    }
    t[500] = 0;
    t[501] = 0;
    t[n - 1] = 0;
    let mut workers = alloc_thread_state(3).unwrap();
    let mut gathered = vec![-3; n];
    let m = count_and_gather_lms_suffixes_8u_omp(&t, &mut gathered, n as i32, &mut vec![0; 2048], 3, &mut workers);
    let mut alone = vec![-3; n];
    assert_eq!(libsais_gsa(&t, &mut alone, 0, None), -1);
    assert_eq!(alone[n - m as usize..], gathered[n - m as usize..]);
    assert_ne!(alone, gathered);
    let mut sa = vec![-3; n];
    assert_eq!(libsais_gsa_omp(&t, &mut sa, 0, None, 3), -1);
    assert_eq!(sa, gathered);
    let mut ctx = create_ctx_main(3).expect("context");
    let mut sa = vec![-3; n];
    assert_eq!(libsais_gsa_ctx(&mut ctx, &t, &mut sa, 0, None), -1);
    assert_eq!(sa, gathered);
    assert_eq!(ctx.thread_state, Some(workers));
}

#[test]
fn new_contexts_hold_zeros() {
    let ctx = create_ctx_omp(3, 8).expect("context");
    assert!(ctx.buckets.iter().all(|&c| c == 0));
    for s in ctx.thread_state.expect("working storage") {
        assert_eq!((s.position, s.count, s.m, s.last_lms_suffix), (0, 0, 0, 0));
        assert!(s.buckets.iter().all(|&c| c == 0));
        assert!(s.cache.iter().all(|c| c.symbol == 0 && c.index == 0));
    }
    assert!(create_ctx().expect("context").buckets.iter().all(|&c| c == 0));
    let plain = unbwt_create_ctx().expect("context");
    assert_eq!(plain.fastbits.len(), 131_073);
    assert!(plain.bucket2.iter().all(|&c| c == 0) && plain.fastbits.iter().all(|&c| c == 0));
    let shared = unbwt_create_ctx_omp(2, 4).expect("context");
    assert_eq!(shared.fastbits.len(), 131_073);
    assert!(shared.bucket2.iter().all(|&c| c == 0) && shared.fastbits.iter().all(|&c| c == 0));
    assert!(shared.buckets.expect("tables").iter().all(|&c| c == 0));
}

#[test]
fn several_workers_count_the_bytes_of_a_long_text_themselves() {
    let n = 262_144;
    let mut state: u32 = 1;
    let mut t: Vec<u8> = Vec::with_capacity(n);
    for _ in 0..n {
        state = state.wrapping_mul(1_664_525).wrapping_add(1_013_904_223);
        t.push((state >> 24) as u8);
    }
    let mut transformed = vec![0u8; n];
    let primary = libsais_bwt(&t, &mut transformed, &mut vec![0; n], 0, None);
    let wrong = vec![1; 256];
    let mut u = vec![0u8; n];
    let mut a = vec![0; n + 1];
    assert_eq!(libsais_unbwt_omp(&transformed, &mut u, &mut a, Some(&wrong), primary, 2), 0);
    assert_eq!(u, t);
    let mut ctx = unbwt_create_ctx_main(2).expect("context");
    let mut u = vec![0u8; n];
    assert_eq!(libsais_unbwt_ctx(&mut ctx, &transformed, &mut u, &mut a, Some(&wrong), primary), 0);
    assert_eq!(u, t);
}
