//! What the scans keep in the working storage of the workers, and how counters are handed from
//! worker to worker.

use vstd::prelude::*;
use crate::types::{SaSint, ThreadCache, ThreadState};

verus! {

/// What the scans use of the working storage of one worker.
pub struct Desk {
    pub position: isize,
    pub count: isize,
    pub buckets: Seq<i32>,
    pub cache: Seq<ThreadCache>,
}

/// The desk in the working storage of a worker.
pub open spec fn desk(s: ThreadState) -> Desk {
    Desk { position: s.position, count: s.count, buckets: s.buckets@, cache: s.cache@ }
}

/// The desks of all workers.
pub open spec fn desks(ts: Seq<ThreadState>) -> Seq<Desk> {
    Seq::new(ts.len(), |w: int| desk(ts[w]))
}

/// Whether nothing but the desks differs.
pub open spec fn quiet(before: Seq<ThreadState>, after: Seq<ThreadState>) -> bool {
    &&& after.len() == before.len()
    &&& forall|w: int| 0 <= w < before.len() ==> (#[trigger] after[w]).m == before[w].m
        && after[w].last_lms_suffix == before[w].last_lms_suffix
}

/// Whether the sizes of the working storage are positions.
pub open spec fn desks_fit(ts: Seq<ThreadState>) -> bool {
    &&& ts.len() <= isize::MAX
    &&& forall|w: int| 0 <= w < ts.len() ==> (#[trigger] ts[w]).buckets.len() <= isize::MAX && ts[w].cache.len() <= isize::MAX
}

/// Whether every desk is as large as before.
pub open spec fn desks_sized(before: Seq<ThreadState>, after: Seq<ThreadState>) -> bool {
    &&& after.len() == before.len()
    &&& forall|w: int| 0 <= w < before.len() ==> (#[trigger] after[w]).buckets.len() == before[w].buckets.len()
        && after[w].cache.len() == before[w].cache.len()
}

/// `a` and `b` added, or `b` taken from `a`.
pub open spec fn combined(a: i32, b: i32, down: bool) -> int {
    if down {
        a - b
    } else {
        a + b
    }
}

/// The counters from `from` on in `main`, with the `k` of a worker added to them or taken from
/// them, and the counters of the worker with those of `main` in their place.
pub open spec fn exchanged(main: Seq<i32>, own: Seq<i32>, from: int, k: int, down: bool) -> Option<(Seq<i32>, Seq<i32>)> {
    if 0 <= k <= own.len() && 0 <= from && from + k <= main.len()
        && (forall|c: int| 0 <= c < k ==> i32::MIN <= combined(main[from + c], #[trigger] own[c], down) <= i32::MAX) {
        Some((
            Seq::new(main.len(), |x: int| if from <= x < from + k { combined(main[x], own[x - from], down) as i32 } else { main[x] }),
            Seq::new(own.len(), |c: int| if c < k { main[from + c] } else { own[c] }),
        ))
    } else {
        None
    }
}

/// Exchanges counters, as [`exchanged`] says.
pub(crate) fn exchange(main: &mut [SaSint], own: &mut [SaSint], from: usize, k: usize, down: bool)
    requires
        exchanged(old(main)@, old(own)@, from as int, k as int, down) is Some,
    ensures
        exchanged(old(main)@, old(own)@, from as int, k as int, down) == Some((final(main)@, final(own)@)),
        final(main).len() == old(main).len(),
        final(own).len() == old(own).len(),
{
    let mut c: usize = 0;
    while c < k
        invariant
            c <= k <= own.len(),
            from + k <= main.len(),
            main.len() == old(main).len(),
            own.len() == old(own).len(),
            forall|d: int| 0 <= d < k ==> i32::MIN <= combined(old(main)@[from + d], #[trigger] old(own)@[d], down) <= i32::MAX,
            forall|x: int| 0 <= x < main.len() ==> #[trigger] main@[x] == (if from <= x < from + c {
                combined(old(main)@[x], old(own)@[x - from], down) as i32
            } else {
                old(main)@[x]
            }),
            forall|d: int| 0 <= d < own.len() ==> #[trigger] own@[d] == (if d < c { old(main)@[from + d] } else { old(own)@[d] }),
        decreases k - c,
    {
        let a: SaSint = main[from + c];
        let b: SaSint = own[c];
        assert(a == old(main)@[from + c] && b == old(own)@[c as int]);
        assert(i32::MIN <= combined(old(main)@[from + c], old(own)@[c as int], down) <= i32::MAX);
        main[from + c] = if down { a - b } else { a + b };
        own[c] = a;
        c += 1;
    }
    proof {
        let x = exchanged(old(main)@, old(own)@, from as int, k as int, down).unwrap();
        assert(main@ =~= x.0);
        assert(own@ =~= x.1);
    }
}

/// The names from `at` on in `main` after the `k` that a worker noted behind its `k` counters:
/// where it noted one, it counts from `d`. The worker is left with those of `main`.
pub open spec fn renamed(main: Seq<i32>, own: Seq<i32>, at: int, k: int, d: i32) -> Option<(Seq<i32>, Seq<i32>)> {
    if 0 <= k && 2 * k <= own.len() && 0 <= at && at + k <= main.len() && i32::MIN < d
        && (forall|c: int| k <= c < 2 * k ==> (#[trigger] own[c]) + d - 1 <= i32::MAX && i32::MIN <= own[c] + d - 1) {
        Some((
            Seq::new(main.len(), |x: int| if at <= x < at + k && own[x - at + k] > 0 { (own[x - at + k] + d - 1) as i32 } else { main[x] }),
            Seq::new(own.len(), |c: int| if k <= c < 2 * k { main[at + c - k] } else { own[c] }),
        ))
    } else {
        None
    }
}

/// Hands names on, as [`renamed`] says.
pub(crate) fn rename(main: &mut [SaSint], own: &mut [SaSint], at: usize, k: usize, d: SaSint)
    requires
        renamed(old(main)@, old(own)@, at as int, k as int, d) is Some,
    ensures
        renamed(old(main)@, old(own)@, at as int, k as int, d) == Some((final(main)@, final(own)@)),
        final(main).len() == old(main).len(),
        final(own).len() == old(own).len(),
{
    let mut c: usize = 0;
    while c < k
        invariant
            c <= k,
            2 * k <= own.len(),
            at + k <= main.len(),
            i32::MIN < d,
            main.len() == old(main).len(),
            own.len() == old(own).len(),
            forall|e: int| k <= e < 2 * k ==> (#[trigger] old(own)@[e]) + d - 1 <= i32::MAX && i32::MIN <= old(own)@[e] + d - 1,
            forall|x: int| 0 <= x < main.len() ==> #[trigger] main@[x] == (if at <= x < at + c && old(own)@[x - at + k] > 0 {
                (old(own)@[x - at + k] + d - 1) as i32
            } else {
                old(main)@[x]
            }),
            forall|e: int| 0 <= e < own.len() ==> #[trigger] own@[e] == (if k <= e < k + c { old(main)@[at + e - k] } else { old(own)@[e] }),
        decreases k - c,
    {
        let a: SaSint = main[at + c];
        let b: SaSint = own[k + c];
        assert(a == old(main)@[at + c] && b == old(own)@[k + c]);
        if b > 0 {
            main[at + c] = b + (d - 1);
        }
        own[k + c] = a;
        c += 1;
    }
    proof {
        let x = renamed(old(main)@, old(own)@, at as int, k as int, d).unwrap();
        assert(main@ =~= x.0);
        assert(own@ =~= x.1);
    }
}

} // verus!
