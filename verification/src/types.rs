use vstd::prelude::*;
use crate::blocks::workers;

verus! {

/// Signed index stored in suffix arrays and buckets.
pub type SaSint = i32;

/// Unsigned index stored in the tables of the inverse transform.
pub type SaUint = u32;

/// Signed machine-word index.
pub type FastSint = isize;

/// Unsigned machine-word index.
pub type FastUint = usize;

pub const SAINT_BIT: u32 = 32;
pub const SAINT_MAX: SaSint = 0x7fff_ffff;
pub const SAINT_MIN: SaSint = -0x8000_0000;
pub const ALPHABET_SIZE: usize = 256;
pub const UNBWT_FASTBITS: usize = 17;
pub const SUFFIX_GROUP_BIT: u32 = 31;
pub const SUFFIX_GROUP_MARKER: SaSint = 0x4000_0000;
pub const LIBSAIS_LOCAL_BUFFER_SIZE: usize = 2000;
pub const LIBSAIS_PER_THREAD_CACHE_SIZE: usize = 24576;
pub const LIBSAIS_FLAGS_NONE: SaSint = 0;
pub const LIBSAIS_FLAGS_BWT: SaSint = 1;
pub const LIBSAIS_FLAGS_GSA: SaSint = 2;

/// Whether `flags` ask for separated texts.
pub open spec fn separated(flags: i32) -> bool {
    flags & LIBSAIS_FLAGS_GSA != 0
}

/// Tests whether `flags` ask for separated texts.
pub fn is_separated(flags: SaSint) -> (r: bool)
    ensures
        r == separated(flags),
{
    (flags & LIBSAIS_FLAGS_GSA) != 0
}

/// What a naming scan works on: the array, the buckets and the last name.
pub type InduceState = (Seq<i32>, Seq<i32>, i32);

/// What a placing scan works on: the array and the buckets.
pub type PlaceState = (Seq<i32>, Seq<i32>);

/// One slot of a block cache: a bucket symbol (or a target slot) and an index.
#[derive(Clone, Copy, Debug, PartialEq, Eq, Structural)]
pub struct ThreadCache {
    pub symbol: SaSint,
    pub index: SaSint,
}

impl Default for ThreadCache {
    fn default() -> (c: Self)
        ensures
            c == (ThreadCache { symbol: 0, index: 0 }),
    {
        ThreadCache { symbol: 0, index: 0 }
    }
}

/// Working storage of one worker.
#[derive(Clone, Debug, PartialEq, Eq)]
pub struct ThreadState {
    pub position: FastSint,
    pub count: FastSint,
    pub m: FastSint,
    pub last_lms_suffix: FastSint,
    pub buckets: Vec<SaSint>,
    pub cache: Vec<ThreadCache>,
}

impl ThreadState {
    /// Whether the buckets and the cache have the sizes that the passes rely on.
    pub open spec fn wf(&self) -> bool {
        self.buckets.len() == 4 * ALPHABET_SIZE && self.cache.len() == LIBSAIS_PER_THREAD_CACHE_SIZE
    }

    /// Working storage with nothing in it.
    pub fn new() -> (s: Self)
        ensures
            s.wf(),
            s.position == 0,
            s.count == 0,
            s.m == 0,
            s.last_lms_suffix == 0,
            forall|i: int| 0 <= i < s.buckets.len() ==> s.buckets@[i] == 0,
            forall|i: int| 0 <= i < s.cache.len() ==> s.cache@[i] == (ThreadCache { symbol: 0, index: 0 }),
    {
        ThreadState {
            position: 0,
            count: 0,
            m: 0,
            last_lms_suffix: 0,
            buckets: vec![0; 4 * ALPHABET_SIZE],
            cache: vec![ThreadCache { symbol: 0, index: 0 }; LIBSAIS_PER_THREAD_CACHE_SIZE],
        }
    }
}

/// Whether every worker's storage has the sizes that the passes rely on.
pub open spec fn workers_wf(s: Seq<ThreadState>) -> bool {
    forall|i: int| 0 <= i < s.len() ==> (#[trigger] s[i]).wf()
}

/// Whether the storage of every worker has the same sizes in `after` as in `before`.
pub open spec fn same_sizes(before: Seq<ThreadState>, after: Seq<ThreadState>) -> bool {
    &&& after.len() == before.len()
    &&& forall|w: int| 0 <= w < before.len() ==> (#[trigger] after[w]).buckets.len() == before[w].buckets.len()
        && after[w].cache.len() == before[w].cache.len()
}

/// Reusable storage for sorting byte texts.
#[derive(Clone, Debug, PartialEq, Eq)]
pub struct Context {
    pub buckets: Vec<SaSint>,
    pub thread_state: Option<Vec<ThreadState>>,
    pub threads: FastSint,
}

impl Context {
    /// Whether the buckets have the size that sorting needs.
    pub open spec fn has_buckets(&self) -> bool {
        self.buckets.len() == 8 * ALPHABET_SIZE
    }

    /// Whether this is a context for one worker that is fit for sorting.
    pub open spec fn is_plain(&self) -> bool {
        self.has_buckets() && self.threads == 1 && self.thread_state is None
    }

    /// The working storage of the workers.
    pub open spec fn storage(&self) -> Seq<ThreadState> {
        match self.thread_state {
            Some(s) => s@,
            None => Seq::empty(),
        }
    }

    /// How many workers share the work on a text of length `n`.
    pub open spec fn sharing(&self, n: int) -> int {
        workers((self.threads as SaSint) as int, n >= 65536, self.storage().len() as int)
    }

    /// Whether the workers who share the work on a text of length `n` have the storage for it.
    pub open spec fn can_share(&self, n: int) -> bool {
        self.sharing(n) == 1 || workers_wf(self.storage())
    }

    /// Whether `after` can be this context once a text of length `n` was sorted in it: the
    /// buckets and, where the text is long and several workers are meant, the working storage
    /// of the workers may hold something else, in the same sizes.
    pub open spec fn same_shape(&self, after: &Context, n: int) -> bool {
        &&& after.buckets.len() == self.buckets.len()
        &&& after.threads == self.threads
        &&& (after.thread_state is Some) == (self.thread_state is Some)
        &&& self.thread_state is Some ==> after.thread_state.unwrap().len() == self.thread_state.unwrap().len()
        &&& same_sizes(self.storage(), after.storage())
        &&& self.threads == 1 || n < 65536 ==> after.thread_state == self.thread_state
    }
}

/// Reusable storage for inverting the transform.
#[derive(Clone, Debug, PartialEq, Eq)]
pub struct UnbwtContext {
    pub bucket2: Vec<SaUint>,
    pub fastbits: Vec<u16>,
    pub buckets: Option<Vec<SaUint>>,
    pub threads: FastSint,
}

} // verus!
