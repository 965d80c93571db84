//! What naming by marks leaves: where the marks say exactly which substrings are the last of their
//! kind, equal substrings share a name, and names have the order of substrings.

use vstd::prelude::*;
use crate::blocks::{block_hi, block_lo};
use crate::fold::fold_up;
use crate::gather::{cleared, text32};
use crate::induction::slot_of;
use crate::kinds::is_lms;
use crate::lane_names::{lemma_chain_equal, lemma_low_marks};
use crate::lane_right::{low_pair, low_true, lows};
use crate::lanes::{fielded, linked, Field};
use crate::lengths::{law_lms_few, lemma_half_taken, noted, spare};
use crate::marks::{bit, marked, unmarked};
use crate::naming::{
    fresh, lemma_listed_slot, lemma_marks_noted, lemma_name_bound, lemma_slots_apart, name_at, name_entry, name_note, nameable,
};
use crate::partial_induction::lms_count;
use crate::placement::{lemma_among, lemma_found};
use crate::renumber::{
    mark_distinct_block_run, mark_distinct_block_step, renumber_and_mark_distinct_4k_run, renumber_distinct_block_run,
    renumber_distinct_block_step, renumber_distinct_run, renumber_distinct_run_omp, renumber_distinct_step,
};
use crate::two_buckets::name_listed;

verus! {

/// The entries without their marks.
pub open spec fn unmarked_all(sa: Seq<i32>) -> Seq<i32> {
    Seq::new(sa.len(), |j: int| unmarked(sa[j]))
}

/// Whether the marks say exactly which of the sorted substrings are the last of their kind.
pub open spec fn marks_exact(t: Seq<i32>, m: int, sa: Seq<i32>) -> bool {
    let w = unmarked_all(sa);
    &&& nameable(t, w, m)
    &&& forall|j: int| 0 <= j < m ==> (#[trigger] sa[j] < 0) == fresh(text32(t), w, m, j + 1)
}

/// What exact scans leave says exactly which substrings are the last of their kind.
pub proof fn lemma_low_exact(t: Seq<i32>, g: Field, low: Seq<i32>, sa: Seq<i32>)
    requires
        g.x == text32(t),
        t.len() <= i32::MAX,
        t.len() <= sa.len(),
        fielded(g),
        g.exact,
        lows(g, low),
        1 <= low.len() == lms_count(text32(t), 0),
        low.len() <= sa.len(),
        forall|j: int| #![trigger low[j]] 0 <= j < low.len() ==> unmarked(sa[j]) == low[j] && low_true(g, low, sa, j),
    ensures
        marks_exact(t, low.len() as int, sa),
{
    let x = text32(t);
    let m = low.len() as int;
    let w = unmarked_all(sa);
    lemma_low_marks(t, g, low, sa);
    assert forall|j: int| 0 <= j < m implies #[trigger] w[j] == low[j] by {
        let p = low[j];
        assert(unmarked(sa[j]) == p);
    }
    assert(nameable(t, w, m)) by {
        assert forall|b: int| 0 <= b < m implies is_lms(x, #[trigger] w[b] as int) by {
            assert(is_lms(x, low[b] as int));
        }
        assert forall|b: int, c: int| 0 <= b < c < m implies #[trigger] w[b] != #[trigger] w[c] by {
            assert(low[b] != low[c]);
        }
        assert forall|p: int| #[trigger] is_lms(x, p) implies crate::placement::among(w, 0, m, p as i32) by {
            let j = lemma_found(low, 0, m, p as i32);
            assert(w[j] == low[j]);
            lemma_among(w, 0, m, j);
        }
        assert forall|b: int, c: int| 0 <= b < c < m implies !crate::substrings::substring_less(
            x,
            #[trigger] w[c] as int,
            #[trigger] w[b] as int,
        ) by {
            assert(!crate::substrings::substring_less(x, low[c] as int, low[b] as int));
        }
    }
    assert forall|j: int| 0 <= j < m implies (#[trigger] sa[j] < 0) == fresh(x, w, m, j + 1) by {
        reveal(fresh);
        assert(w[j] == low[j]);
        let p = low[j];
        assert(low_true(g, low, sa, j));
        if j + 1 < m {
            assert(w[j + 1] == low[j + 1]);
            if sa[j] >= 0 {
                assert(low_pair(g, low, j) && linked(g, low[j] + 1, low[j + 1] + 1));
                assert(is_lms(x, low[j] as int) && is_lms(x, low[j + 1] as int));
                lemma_chain_equal(x, low[j] as int, low[j + 1] as int);
            }
        } else {
            if sa[j] >= 0 {
                assert(low_pair(g, low, j));
            }
        }
    }
}

/// The state of the naming in front of the sorted suffix `i`.
spec fn marking_at(t: Seq<i32>, m: int, sa: Seq<i32>, st: (Seq<i32>, i32, i32), i: int) -> bool {
    let x = text32(t);
    let n = t.len() as int;
    let w = unmarked_all(sa);
    let (s, name, previous) = st;
    &&& s.len() == sa.len()
    &&& name == name_at(x, w, m, i)
    &&& (previous < 0) == (i > 0 && fresh(x, w, m, i))
    &&& forall|b: int| #![trigger w[b]] 0 <= b < i ==> s[m + w[b] as int / 2] == name_entry(x, w, m, b, false)
    &&& forall|h: int| 0 <= h < n / 2 && #[trigger] spare(x, h) ==> s[m + h] == 0
    &&& forall|j: int| 0 <= j < i ==> #[trigger] s[j] == w[j]
    &&& forall|j: int| i <= j < m ==> #[trigger] s[j] == sa[j]
}

/// Naming one more suffix keeps the state.
#[verifier::spinoff_prover]
proof fn lemma_marking_step(t: Seq<i32>, m: int, sa: Seq<i32>, st: (Seq<i32>, i32, i32), i: int)
    requires
        marks_exact(t, m, sa),
        0 <= i < m,
        marking_at(t, m, sa, st, i),
    ensures
        renumber_distinct_step(m)(st, i) is Some,
        marking_at(t, m, sa, renumber_distinct_step(m)(st, i)->0, i + 1),
{
    let x = text32(t);
    let n = t.len() as int;
    let w = unmarked_all(sa);
    let (s, name, previous) = st;
    let p = sa[i];
    let q = w[i] as int;
    law_lms_few(x);
    assert(s[i] == sa[i]);
    assert(unmarked(sa[i]) == w[i]);
    assert(is_lms(x, w[i] as int));
    lemma_half_taken(x, q);
    lemma_name_bound(x, w, m, i);
    lemma_name_bound(x, w, m, i + 1);
    assert((sa[i] < 0) == fresh(x, w, m, i + 1));
    assert(i == 0 ==> fresh(x, w, m, i)) by {
        reveal(fresh);
    }
    let nx = (
        s.update(i, w[i]).update(m + q / 2, name_entry(x, w, m, i, false)),
        name_at(x, w, m, i + 1) as i32,
        p,
    );
    assert(name_at(x, w, m, i + 1) == name_at(x, w, m, i) + bit(p < 0));
    assert(name_entry(x, w, m, i, false) == marked(name, p < 0 && previous < 0));
    assert(renumber_distinct_step(m)(st, i) == Some(nx));
    assert forall|b: int| #![trigger w[b]] 0 <= b < i + 1 implies nx.0[m + w[b] as int / 2] == name_entry(x, w, m, b, false) by {
        if b < i {
            lemma_slots_apart(t, w, m, b, i);
            assert(s[m + w[b] as int / 2] == name_entry(x, w, m, b, false));
        }
    }
    assert forall|h: int| 0 <= h < n / 2 && #[trigger] spare(x, h) implies nx.0[m + h] == 0 by {
        assert(s[m + h] == 0);
    }
}

/// The naming runs from suffix to suffix.
proof fn lemma_marking_run(t: Seq<i32>, m: int, sa: Seq<i32>, i: int)
    requires
        marks_exact(t, m, sa),
        0 <= i <= m,
    ensures
        ({
            let st = renumber_distinct_run(m, (cleared(sa, m, m + t.len() as int / 2), 1, 0), 0, i);
            st is Some && marking_at(t, m, sa, st->0, i)
        }),
    decreases i,
{
    let x = text32(t);
    law_lms_few(x);
    if i > 0 {
        lemma_marking_run(t, m, sa, i - 1);
        let st = renumber_distinct_run(m, (cleared(sa, m, m + t.len() as int / 2), 1, 0), 0, i - 1)->0;
        lemma_marking_step(t, m, sa, st, i - 1);
    }
}

/// Naming by marks gives equal substrings the same name, by their order, and marks the suffixes
/// that need not be sorted again where some name is shared.
pub proof fn law_marked_names(t: Seq<i32>, m: int, sa: Seq<i32>)
    requires
        marks_exact(t, m, sa),
        forall|i: int| 0 <= i < t.len() ==> 0 <= #[trigger] t[i],
    ensures
        ({
            let r = renumber_and_mark_distinct_4k_run(sa, t.len() as int, m, 1, 1);
            &&& r is Some
            &&& name_listed(t, unmarked_all(sa), m, r.unwrap().0, r.unwrap().1, false)
        }),
{
    let x = text32(t);
    let n = t.len() as int;
    let w = unmarked_all(sa);
    law_lms_few(x);
    lemma_marking_run(t, m, sa, m);
    let c = cleared(sa, m, m + n / 2);
    let st = renumber_distinct_run(m, (c, 1, 0), 0, m)->0;
    lemma_name_bound(x, w, m, m);
    assert(fresh(x, w, m, m)) by {
        reveal(fresh);
    }
    let s = st.0;
    assert(renumber_distinct_run_omp(c, m, 1) == Some((s, st.1))) by {
        reveal_with_fuel(fold_up, 2);
        assert(renumber_distinct_block_run(m, 1, (c, 1), 0, 1) == renumber_distinct_block_step(m, 1)((c, 1), 0));
        assert(block_lo(m, 1, 0) == 0 && block_hi(m, 1, 0) == m);
    }
    assert forall|p: int| #[trigger] is_lms(x, p) implies s[m + p / 2] == name_note(x, w, m, false)(p) by {
        lemma_listed_slot(t, w, m, p);
        let b = slot_of(w, m, p);
        assert(w[b] == p);
        assert(s[m + w[b] as int / 2] == name_entry(x, w, m, b, false));
    }
    assert(noted(x, m, s, name_note(x, w, m, false)));
    lemma_marks_noted(t, w, m, s, false);
    assert(mark_distinct_block_run(m, n / 2, 1, s, 0, 1) == mark_distinct_block_step(m, n / 2, 1)(s, 0)) by {
        reveal_with_fuel(fold_up, 2);
    }
}

} // verus!
