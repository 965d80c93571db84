//! Runs of steps over ranges of positions, where a step may be undefined.

use vstd::prelude::*;

verus! {

/// Runs `f` over the positions `lo, lo + 1, .., hi - 1`, each step on the state
/// left by the one before. `None` marks a step outside the domain of `f`.
pub open spec fn fold_up<S>(f: spec_fn(S, int) -> Option<S>, s: S, lo: int, hi: int) -> Option<S>
    decreases hi - lo,
{
    if hi <= lo {
        Some(s)
    } else {
        match fold_up(f, s, lo, hi - 1) {
            Some(x) => f(x, hi - 1),
            None => None,
        }
    }
}

/// Runs `f` over the positions `hi - 1, hi - 2, .., lo`, each step on the state
/// left by the one before. `None` marks a step outside the domain of `f`.
pub open spec fn fold_down<S>(f: spec_fn(S, int) -> Option<S>, s: S, lo: int, hi: int) -> Option<S>
    decreases hi - lo,
{
    if hi <= lo {
        Some(s)
    } else {
        match fold_down(f, s, lo + 1, hi) {
            Some(x) => f(x, lo),
            None => None,
        }
    }
}

/// A run that ends well is well defined on every prefix of its positions.
pub proof fn lemma_fold_up_prefix<S>(
    f: spec_fn(S, int) -> Option<S>,
    s: S,
    lo: int,
    mid: int,
    hi: int,
)
    requires
        mid <= hi,
    ensures
        fold_up(f, s, lo, mid) is None ==> fold_up(f, s, lo, hi) is None || hi <= lo,
    decreases hi - mid,
{
    if mid < hi && lo < hi {
        lemma_fold_up_prefix(f, s, lo, mid, hi - 1);
    }
}

/// A downward run that ends well is well defined after every number of steps.
pub proof fn lemma_fold_down_prefix<S>(
    f: spec_fn(S, int) -> Option<S>,
    s: S,
    lo: int,
    mid: int,
    hi: int,
)
    requires
        lo <= mid,
    ensures
        fold_down(f, s, mid, hi) is None ==> fold_down(f, s, lo, hi) is None || hi <= lo,
    decreases mid - lo,
{
    if lo < mid && lo < hi {
        lemma_fold_down_prefix(f, s, lo + 1, mid, hi);
    }
}

/// A run is a run to any position on the way, and one from there on.
pub proof fn lemma_fold_up_split<S>(f: spec_fn(S, int) -> Option<S>, s: S, lo: int, mid: int, hi: int)
    requires
        lo <= mid <= hi,
    ensures
        fold_up(f, s, lo, hi) == (match fold_up(f, s, lo, mid) {
            Some(x) => fold_up(f, x, mid, hi),
            None => None,
        }),
    decreases hi - mid,
{
    if mid < hi {
        lemma_fold_up_split(f, s, lo, mid, hi - 1);
    }
}

/// A run downward is a run over its upper positions, then one over its lower ones.
pub proof fn lemma_fold_down_split<S>(f: spec_fn(S, int) -> Option<S>, s: S, lo: int, mid: int, hi: int)
    requires
        lo <= mid <= hi,
    ensures
        fold_down(f, s, lo, hi) == (match fold_down(f, s, mid, hi) {
            Some(x) => fold_down(f, x, lo, mid),
            None => None,
        }),
    decreases mid - lo,
{
    if lo < mid {
        lemma_fold_down_split(f, s, lo + 1, mid, hi);
    }
}

/// Two runs downward whose positions differ by `d`.
pub proof fn lemma_fold_shifted<S>(
    f: spec_fn(S, int) -> Option<S>,
    h: spec_fn(S, int) -> Option<S>,
    s: S,
    d: int,
    lo: int,
    hi: int,
)
    requires
        forall|st: S, i: int| lo <= i < hi ==> #[trigger] f(st, i) == h(st, i + d),
    ensures
        fold_down(f, s, lo, hi) == fold_down(h, s, lo + d, hi + d),
    decreases hi - lo,
{
    if lo < hi {
        lemma_fold_shifted(f, h, s, d, lo + 1, hi);
    }
}

/// Folding down with steps that agree on the range.
pub proof fn lemma_fold_down_same<S>(
    f: spec_fn(S, int) -> Option<S>,
    g: spec_fn(S, int) -> Option<S>,
    s: S,
    lo: int,
    hi: int,
)
    requires
        forall|x: S, i: int| lo <= i < hi ==> #[trigger] f(x, i) == g(x, i),
    ensures
        fold_down(f, s, lo, hi) == fold_down(g, s, lo, hi),
    decreases hi - lo,
{
    if lo < hi {
        lemma_fold_down_same(f, g, s, lo + 1, hi);
    }
}

/// Folding up with steps that agree on the range.
pub proof fn lemma_fold_up_same<S>(
    f: spec_fn(S, int) -> Option<S>,
    g: spec_fn(S, int) -> Option<S>,
    s: S,
    lo: int,
    hi: int,
)
    requires
        forall|x: S, i: int| lo <= i < hi ==> #[trigger] f(x, i) == g(x, i),
    ensures
        fold_up(f, s, lo, hi) == fold_up(g, s, lo, hi),
    decreases hi - lo,
{
    if lo < hi {
        lemma_fold_up_same(f, g, s, lo, hi - 1);
    }
}

} // verus!
