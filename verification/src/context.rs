//! Reusable storage, and small index arithmetic.

use vstd::prelude::*;
use crate::types::{
    workers_wf, Context, FastSint, FastUint, SaSint, SaUint, ThreadCache, ThreadState, UnbwtContext, ALPHABET_SIZE,
};
use crate::unbwt_parallel::SEGMENT;
use crate::unbwt_tables::BIGRAMS;

verus! {

/// The slot of kind `s` of symbol `c`, where a symbol has two.
pub fn buckets_index2(c: FastUint, s: FastUint) -> (r: FastUint)
    requires
        2 * c + s <= usize::MAX,
    ensures
        r == 2 * c + s,
{
    2 * c + s
}

/// The slot of kind `s` of symbol `c`, where a symbol has four.
pub fn buckets_index4(c: FastUint, s: FastUint) -> (r: FastUint)
    requires
        4 * c + s <= usize::MAX,
    ensures
        r == 4 * c + s,
{
    4 * c + s
}

/// The least multiple of `alignment`, a power of two, that is not below `value`.
pub fn align_up(value: usize, alignment: usize) -> (r: usize)
    requires
        alignment > 0,
        alignment & ((alignment - 1) as usize) == 0,
        value + alignment - 1 <= usize::MAX,
    ensures
        value <= r < value + alignment,
        r % alignment == 0,
{
    let top: usize = value + (alignment - 1);
    proof {
        let q = top as int / alignment as int;
        vstd::arithmetic::div_mod::lemma_fundamental_div_mod(top as int, alignment as int);
        vstd::arithmetic::div_mod::lemma_mod_multiples_basic(q, alignment as int);
        assert(alignment * q == q * alignment) by (nonlinear_arith);
    }
    top - top % alignment
}

/// Whether nothing is stored.
pub open spec fn empty_state(s: ThreadState) -> bool {
    &&& s.wf()
    &&& s.position == 0
    &&& s.count == 0
    &&& s.m == 0
    &&& s.last_lms_suffix == 0
    &&& forall|i: int| 0 <= i < s.buckets.len() ==> s.buckets@[i] == 0
    &&& forall|i: int| 0 <= i < s.cache.len() ==> s.cache@[i] == (ThreadCache { symbol: 0, index: 0 })
}

/// Working storage for `threads` workers, of whom there is at least one.
pub fn alloc_thread_state(threads: SaSint) -> (r: Option<Vec<ThreadState>>)
    ensures
        r is Some == (threads > 0),
        r is Some ==> r->0.len() == threads && workers_wf(r->0@),
        r is Some ==> forall|i: int| 0 <= i < threads ==> empty_state(#[trigger] r->0@[i]),
{
    if threads <= 0 {
        return None;
    }
    let mut all: Vec<ThreadState> = Vec::new();
    let mut i: SaSint = 0;
    while i < threads
        invariant
            0 <= i <= threads,
            all.len() == i,
            forall|k: int| 0 <= k < i ==> empty_state(#[trigger] all@[k]),
        decreases threads - i,
    {
        all.push(ThreadState::new());
        i += 1;
    }
    Some(all)
}

/// Storage for sorting with `threads` workers, of whom there is at least one.
pub fn create_ctx_main(threads: SaSint) -> (r: Option<Context>)
    ensures
        r is Some == (threads > 0),
        r matches Some(ctx) ==> {
            &&& ctx.has_buckets()
            &&& forall|i: int| 0 <= i < ctx.buckets.len() ==> #[trigger] ctx.buckets@[i] == 0
            &&& ctx.threads == threads
            &&& (ctx.thread_state is Some) == (threads > 1)
            &&& ctx.thread_state matches Some(s) ==> s.len() == threads && workers_wf(s@)
                && forall|i: int| 0 <= i < threads ==> empty_state(#[trigger] s@[i])
        },
{
    if threads <= 0 {
        return None;
    }
    let thread_state: Option<Vec<ThreadState>> = if threads > 1 { alloc_thread_state(threads) } else { None };
    Some(Context { buckets: vec![0; 8 * ALPHABET_SIZE], thread_state, threads: threads as FastSint })
}

/// Storage for sorting with one worker.
pub fn create_ctx() -> (r: Option<Context>)
    ensures
        r is Some,
        r->0.has_buckets(),
        forall|i: int| 0 <= i < r->0.buckets.len() ==> #[trigger] r->0.buckets@[i] == 0,
        r->0.threads == 1,
        r->0.thread_state is None,
{
    create_ctx_main(1)
}

/// Gives storage back.
pub fn free_ctx(_ctx: Context) {
}

/// Storage for inverting with `threads` workers, of whom there is at least one.
pub fn unbwt_create_ctx_main(threads: SaSint) -> (r: Option<UnbwtContext>)
    requires
        threads * SEGMENT <= usize::MAX,
    ensures
        r is Some == (threads > 0),
        r matches Some(ctx) ==> {
            &&& ctx.wf()
            &&& ctx.fastbits.len() == 131073
            &&& ctx.threads == threads
            &&& (ctx.buckets is Some) == (threads > 1)
            &&& ctx.buckets matches Some(s) ==> s.len() == threads * SEGMENT
            &&& forall|i: int| 0 <= i < ctx.bucket2.len() ==> #[trigger] ctx.bucket2@[i] == 0
            &&& forall|i: int| 0 <= i < ctx.fastbits.len() ==> #[trigger] ctx.fastbits@[i] == 0
            &&& ctx.buckets matches Some(s) ==> forall|i: int| 0 <= i < s.len() ==> #[trigger] s@[i] == 0
        },
{
    if threads <= 0 {
        return None;
    }
    let buckets: Option<Vec<SaUint>> = if threads > 1 { Some(vec![0; threads as usize * SEGMENT]) } else { None };
    Some(UnbwtContext { bucket2: vec![0; BIGRAMS], fastbits: vec![0; 131073], buckets, threads: threads as FastSint })
}

/// Gives storage back.
pub fn unbwt_free_ctx_main(_ctx: UnbwtContext) {
}

/// Storage for inverting with one worker.
pub fn unbwt_create_ctx() -> (r: Option<UnbwtContext>)
    ensures
        r is Some,
        r->0.wf(),
        r->0.fastbits.len() == 131073,
        r->0.threads == 1,
        r->0.buckets is None,
        forall|i: int| 0 <= i < r->0.bucket2.len() ==> #[trigger] r->0.bucket2@[i] == 0,
        forall|i: int| 0 <= i < r->0.fastbits.len() ==> #[trigger] r->0.fastbits@[i] == 0,
{
    unbwt_create_ctx_main(1)
}

/// Gives storage back.
pub fn unbwt_free_ctx(_ctx: UnbwtContext) {
}

/// How many workers are meant where `threads` are asked for and `available` can run at the
/// same time: zero asks for all that can.
pub open spec fn normalized(threads: i32, available: i32) -> i32 {
    if threads > 0 {
        threads
    } else if available > 1 {
        available
    } else {
        1
    }
}

/// Computes [`normalized`].
pub fn normalize_omp_threads(threads: SaSint, available: SaSint) -> (r: SaSint)
    ensures
        r == normalized(threads, available),
        r >= 1,
{
    if threads > 0 {
        threads
    } else if available > 1 {
        available
    } else {
        1
    }
}

/// Storage for sorting with `threads` workers, or with all that are `available` where
/// `threads` is zero.
pub fn create_ctx_omp(threads: SaSint, available: SaSint) -> (r: Option<Context>)
    ensures
        r is Some == (threads >= 0),
        r matches Some(ctx) ==> {
            let count = normalized(threads, available);
            &&& ctx.has_buckets()
            &&& forall|i: int| 0 <= i < ctx.buckets.len() ==> #[trigger] ctx.buckets@[i] == 0
            &&& ctx.threads == count
            &&& (ctx.thread_state is Some) == (count > 1)
            &&& ctx.thread_state matches Some(s) ==> s.len() == count && workers_wf(s@)
                && forall|i: int| 0 <= i < count ==> empty_state(#[trigger] s@[i])
        },
{
    if threads < 0 {
        return None;
    }
    create_ctx_main(normalize_omp_threads(threads, available))
}

/// Storage for inverting with `threads` workers, or with all that are `available` where
/// `threads` is zero.
pub fn unbwt_create_ctx_omp(threads: SaSint, available: SaSint) -> (r: Option<UnbwtContext>)
    requires
        threads >= 0 ==> normalized(threads, available) * SEGMENT <= usize::MAX,
    ensures
        r is Some == (threads >= 0),
        r matches Some(ctx) ==> {
            let count = normalized(threads, available);
            &&& ctx.wf()
            &&& ctx.fastbits.len() == 131073
            &&& ctx.threads == count
            &&& (ctx.buckets is Some) == (count > 1)
            &&& ctx.buckets matches Some(s) ==> s.len() == count * SEGMENT
            &&& forall|i: int| 0 <= i < ctx.bucket2.len() ==> #[trigger] ctx.bucket2@[i] == 0
            &&& forall|i: int| 0 <= i < ctx.fastbits.len() ==> #[trigger] ctx.fastbits@[i] == 0
            &&& ctx.buckets matches Some(s) ==> forall|i: int| 0 <= i < s.len() ==> #[trigger] s@[i] == 0
        },
{
    if threads < 0 {
        return None;
    }
    unbwt_create_ctx_main(normalize_omp_threads(threads, available))
}

/// The size in bytes of what is kept for a worker, without what its buckets and its cache
/// refer to.
pub fn thread_state_size() -> (r: usize)
    ensures
        r == vstd::layout::size_of::<ThreadState>(),
{
    core::mem::size_of::<ThreadState>()
}

} // verus!
