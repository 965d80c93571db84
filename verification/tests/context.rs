use libsais::{
    ALPHABET_SIZE, LIBSAIS_PER_THREAD_CACHE_SIZE, align_up, create_ctx, create_ctx_main,
    free_ctx,
};

#[test]
fn align_up_matches_power_of_two_alignment() {
    assert_eq!(align_up(0, 4096), 0);
    assert_eq!(align_up(1, 4096), 4096);
    assert_eq!(align_up(4095, 4096), 4096);
    assert_eq!(align_up(4096, 4096), 4096);
    assert_eq!(align_up(4097, 4096), 8192);
    assert_eq!(align_up(65, 64), 128);
}

#[test]
fn create_ctx_main_matches_single_thread_layout() {
    let ctx = create_ctx_main(1).expect("context");
    assert_eq!(ctx.buckets.len(), 8 * ALPHABET_SIZE);
    assert_eq!(ctx.threads, 1);
    assert!(ctx.thread_state.is_none());
}

#[test]
fn create_ctx_main_allocates_thread_state_for_multi_threaded_mode() {
    let ctx = create_ctx_main(3).expect("context");
    let states = ctx.thread_state.expect("thread state");
    assert_eq!(states.len(), 3);
    assert!(states.iter().all(|state| state.buckets.len() == 4 * ALPHABET_SIZE));
    assert!(states
        .iter()
        .all(|state| state.cache.len() == LIBSAIS_PER_THREAD_CACHE_SIZE));
}

#[test]
fn create_ctx_wraps_single_thread_main_context() {
    let ctx = create_ctx().expect("context");
    assert_eq!(ctx.threads, 1);
    assert_eq!(ctx.buckets.len(), 8 * ALPHABET_SIZE);
    assert!(ctx.thread_state.is_none());
}

#[test]
fn free_ctx_accepts_context_value() {
    let ctx = create_ctx().expect("context");
    free_ctx(ctx);
}
