use libsais::{
    ALPHABET_SIZE, UNBWT_FASTBITS, FastSint, SaSint, libsais_bwt, libsais_bwt_aux,
    libsais_bwt_aux_omp, libsais_unbwt, libsais_unbwt_aux, libsais_unbwt_aux_omp,
    unbwt_compute_histogram, unbwt_create_ctx_main, unbwt_decode, unbwt_decode_1,
    unbwt_init_parallel, unbwt_init_single, unbwt_transpose_bucket2,
};

#[test]
fn unbwt_create_ctx_main_allocates_expected_buffers() {
    let ctx = unbwt_create_ctx_main(3).expect("context");
    assert_eq!(ctx.bucket2.len(), ALPHABET_SIZE * ALPHABET_SIZE);
    assert_eq!(ctx.fastbits.len(), 1 + (1 << UNBWT_FASTBITS));
    assert_eq!(
        ctx.buckets.as_ref().expect("parallel buckets").len(),
        3 * (ALPHABET_SIZE + ALPHABET_SIZE * ALPHABET_SIZE)
    );
    assert_eq!(ctx.threads, 3);
}

#[test]
fn unbwt_compute_histogram_counts_bytes() {
    let t = b"banana";
    let mut count = vec![0u32; ALPHABET_SIZE];
    unbwt_compute_histogram(t, t.len() as FastSint, &mut count);
    assert_eq!(count[b'a' as usize], 3);
    assert_eq!(count[b'b' as usize], 1);
    assert_eq!(count[b'n' as usize], 2);
}

#[test]
fn unbwt_transpose_bucket2_swaps_matrix_entries() {
    let mut bucket2 = vec![0u32; ALPHABET_SIZE * ALPHABET_SIZE];
    bucket2[(2 << 8) + 1] = 7;
    bucket2[(1 << 8) + 2] = 9;
    unbwt_transpose_bucket2(&mut bucket2);
    assert_eq!(bucket2[(1 << 8) + 2], 7);
    assert_eq!(bucket2[(2 << 8) + 1], 9);
}

#[test]
fn unbwt_init_single_builds_monotone_fastbits_and_writes_psi() {
    let t = b"annb\x00aa";
    let mut p = vec![0u32; t.len() + 1];
    let mut bucket2 = vec![0u32; ALPHABET_SIZE * ALPHABET_SIZE];
    let mut fastbits = vec![0u16; 1 + (1 << UNBWT_FASTBITS)];
    let i = vec![4u32];

    unbwt_init_single(
        t,
        &mut p,
        t.len() as SaSint,
        None,
        &i,
        &mut bucket2,
        &mut fastbits,
    );

    assert!(fastbits
        .iter()
        .all(|&value| usize::from(value) < ALPHABET_SIZE * ALPHABET_SIZE));
    assert!(fastbits.iter().any(|&value| value != 0));
    assert!(p.iter().any(|&value| value != 0));
}

#[test]
fn unbwt_init_parallel_currently_matches_single_initializer() {
    let t = b"annb\x00aa";
    let mut p_single = vec![0u32; t.len() + 1];
    let mut p_parallel = vec![0u32; t.len() + 1];
    let mut bucket2_single = vec![0u32; ALPHABET_SIZE * ALPHABET_SIZE];
    let mut bucket2_parallel = vec![0u32; ALPHABET_SIZE * ALPHABET_SIZE];
    let mut fastbits_single = vec![0u16; 1 + (1 << UNBWT_FASTBITS)];
    let mut fastbits_parallel = vec![0u16; 1 + (1 << UNBWT_FASTBITS)];
    let i = vec![4u32];
    let mut scratch = vec![0u32; 2 * (ALPHABET_SIZE + ALPHABET_SIZE * ALPHABET_SIZE)];

    unbwt_init_single(
        t,
        &mut p_single,
        t.len() as SaSint,
        None,
        &i,
        &mut bucket2_single,
        &mut fastbits_single,
    );
    unbwt_init_parallel(
        t,
        &mut p_parallel,
        t.len() as SaSint,
        None,
        &i,
        &mut bucket2_parallel,
        &mut fastbits_parallel,
        Some(&mut scratch),
        2,
    );

    assert_eq!(p_parallel, p_single);
    assert_eq!(bucket2_parallel, bucket2_single);
    assert_eq!(fastbits_parallel, fastbits_single);
}

#[test]
fn unbwt_decode_1_writes_big_endian_symbol_words() {
    let mut u = vec![0u8; 4];
    let p = vec![1u32, 0u32];
    let mut bucket2 = vec![0u32; ALPHABET_SIZE * ALPHABET_SIZE];
    bucket2[0x1234] = 0;
    bucket2[0x1235] = 2;
    let mut fastbits = vec![0u16; 1 + (1 << UNBWT_FASTBITS)];
    fastbits[0] = 0x1234;
    let mut i0 = 0usize;

    unbwt_decode_1(&mut u, &p, &bucket2, &fastbits, 0, &mut i0, 2);

    assert_eq!(u, vec![0x12, 0x35, 0x12, 0x35]);
    assert_eq!(i0, 0);
}

#[test]
fn unbwt_decode_dispatches_two_block_tail_shape() {
    let mut u = vec![0u8; 8];
    let p = vec![1u32, 0u32];
    let mut bucket2 = vec![0u32; ALPHABET_SIZE * ALPHABET_SIZE];
    bucket2[0x1234] = 0;
    bucket2[0x1235] = 2;
    let mut fastbits = vec![0u16; 1 + (1 << UNBWT_FASTBITS)];
    fastbits[0] = 0x1234;
    let i = vec![0u32, 0u32];

    unbwt_decode(&mut u, &p, 4, 2, &i, &bucket2, &fastbits, 2, 2);

    assert_eq!(u, vec![0x12, 0x35, 0x12, 0x35, 0x00, 0x00, 0x00, 0x00]);
}

#[test]
fn libsais_unbwt_aux_rejects_invalid_sampling_range() {
    let t = b"abc";
    let mut u = vec![0u8; t.len()];
    let mut a = vec![0i32; t.len()];

    let result = libsais_unbwt_aux(t, &mut u, &mut a, None, 2, &[0, 4]);

    assert_eq!(result, -1);
}

#[test]
fn libsais_bwt_and_unbwt_round_trip_small_text() {
    let t = b"banana";
    let mut bwt = vec![0u8; t.len()];
    let mut a = vec![0i32; t.len()];

    let primary = libsais_bwt(t, &mut bwt, &mut a, 0, None);
    assert!(primary > 0);

    let mut restored = vec![0u8; t.len()];
    let result = libsais_unbwt(&bwt, &mut restored, &mut a, None, primary);

    assert_eq!(result, 0);
    assert_eq!(restored, t);
}

#[test]
fn libsais_bwt_aux_and_unbwt_aux_round_trip_small_text() {
    let t = b"mississippi";
    let mut bwt = vec![0u8; t.len()];
    let mut a = vec![0i32; t.len()];
    let mut samples = vec![0i32; 4];

    let result = libsais_bwt_aux(t, &mut bwt, &mut a, 0, None, 4, &mut samples);
    assert_eq!(result, 0);

    let mut restored = vec![0u8; t.len()];
    let result = libsais_unbwt_aux(&bwt, &mut restored, &mut a, None, 4, &samples);

    assert_eq!(result, 0);
    assert_eq!(restored, t);
}

#[test]
fn libsais_bwt_aux_and_unbwt_aux_omp_round_trip_small_text() {
    let t = b"mississippi";
    let mut bwt = vec![0u8; t.len()];
    let mut a = vec![0i32; t.len()];
    let mut samples = vec![0i32; 4];

    let result = libsais_bwt_aux(t, &mut bwt, &mut a, 0, None, 4, &mut samples);
    assert_eq!(result, 0);

    let mut restored = vec![0u8; t.len()];
    let result = libsais_unbwt_aux_omp(&bwt, &mut restored, &mut a, None, 4, &samples, 2);

    assert_eq!(result, 0);
    assert_eq!(restored, t);
}

#[test]
fn libsais_bwt_aux_rejects_undersized_sampling_array() {
    let t = b"upstream source text";
    let mut bwt = vec![0u8; t.len()];
    let mut a = vec![0i32; t.len()];
    let mut samples = vec![0i32; 1];

    let result = libsais_bwt_aux(t, &mut bwt, &mut a, 0, None, 2, &mut samples);

    assert_eq!(result, -1);
}

#[test]
fn libsais_bwt_aux_omp_rejects_invalid_sampling_rate_without_panicking() {
    let t = b"upstream source text";
    let mut bwt = vec![0u8; t.len()];
    let mut a = vec![0i32; t.len()];
    let mut samples = vec![0i32; 4];

    let result = libsais_bwt_aux_omp(t, &mut bwt, &mut a, 0, None, 0, &mut samples, 2);

    assert_eq!(result, -1);
}
