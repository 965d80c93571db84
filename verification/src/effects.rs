//! What the passes over marked and named entries do, in closed form.

use vstd::prelude::*;
use crate::blocks::{block_hi, block_lo, law_blocks_join};
use crate::compact::{merge_nonunique_run, unique_in};
use crate::fold::{fold_down, fold_up};
use crate::gather::cleared;
use crate::marks::{bit, flipped, grouped, marked, ungrouped, unmarked};
use crate::radix::{
    compact_and_place_run, compact_cached_run, count_negative_marked_in, count_zero_marked_in,
    partial_sorting_gather_lms_suffixes_32s_1k_slot_run, partial_sorting_gather_lms_suffixes_32s_4k_slot_run,
    place_cached_run, radix_sort_lms_suffixes_32s_2k_run, radix_sort_lms_suffixes_32s_2k_step,
    radix_sort_set_markers_32s_6k_slot_run, shift_mark_run,
};
use crate::renumber::{
    gather_marked_end, gather_marked_join_step, gather_marked_lms_suffixes_run, gather_marked_part_step,
    gather_marked_run, gather_marked_shared, half, mark_distinct_lms_suffixes_32s_run, mark_distinct_run,
    naming_storage, reconstruct_lms_run, reconstruct_lms_suffixes_run, renumber_and_gather_run,
    renumber_and_gather_shared, renumber_lms_run, renumber_lms_suffixes_8u_run,
};
use crate::shares::{lemma_block_order, share_start};
use crate::types::{ThreadCache, ThreadState};

verus! {

/// Reconstructing replaces each rank of a block in front of slot `n - m` by the entry that
/// stands `n - m` slots behind it in rank, and keeps everything else.
pub proof fn law_reconstructed(sa: Seq<i32>, n: int, m: int, start: int, size: int)
    requires
        0 <= m <= n <= sa.len(),
        n <= i32::MAX,
        0 <= start,
        0 <= size,
        start + size <= n - m,
        forall|i: int| start <= i < start + size ==> 0 <= #[trigger] sa[i] < m,
    ensures
        reconstruct_lms_suffixes_run(sa, n, m, start, size) is Some,
        ({
            let x = reconstruct_lms_suffixes_run(sa, n, m, start, size)->0;
            &&& x.len() == sa.len()
            &&& forall|i: int| start <= i < start + size ==> #[trigger] x[i] == sa[n - m + sa[i]]
            &&& forall|i: int| 0 <= i < sa.len() && !(start <= i < start + size) ==> #[trigger] x[i] == sa[i]
        }),
{
    lemma_reconstructed(sa, n, m, start, start + size);
}

/// Reconstructing a range, as [`law_reconstructed`] says.
proof fn lemma_reconstructed(sa: Seq<i32>, n: int, m: int, start: int, hi: int)
    requires
        0 <= m <= n <= sa.len(),
        0 <= start <= hi <= n - m,
        forall|i: int| start <= i < hi ==> 0 <= #[trigger] sa[i] < m,
    ensures
        reconstruct_lms_run(n - m, sa, start, hi) is Some,
        ({
            let x = reconstruct_lms_run(n - m, sa, start, hi)->0;
            &&& x.len() == sa.len()
            &&& forall|i: int| start <= i < hi ==> #[trigger] x[i] == sa[n - m + sa[i]]
            &&& forall|i: int| 0 <= i < sa.len() && !(start <= i < hi) ==> #[trigger] x[i] == sa[i]
        }),
    decreases hi - start,
{
    if start < hi {
        lemma_reconstructed(sa, n, m, start, hi - 1);
        assert(0 <= sa[hi - 1] < m);
    }
}

/// The marked entries from `lo` up to `hi`, in order and without their marks.
pub open spec fn marked_entries(sa: Seq<i32>, lo: int, hi: int) -> Seq<i32>
    decreases hi - lo,
{
    if hi <= lo {
        Seq::empty()
    } else if sa[lo] < 0 {
        seq![unmarked(sa[lo])] + marked_entries(sa, lo + 1, hi)
    } else {
        marked_entries(sa, lo + 1, hi)
    }
}

/// There are as many marked entries as the count says.
pub proof fn law_marked_entries_counted(sa: Seq<i32>, lo: int, hi: int)
    requires
        lo <= hi,
    ensures
        marked_entries(sa, lo, hi).len() == count_negative_marked_in(sa, lo, hi),
    decreases hi - lo,
{
    if lo < hi {
        law_marked_entries_counted(sa, lo + 1, hi);
        lemma_count_from_front(sa, lo, hi);
    }
}

/// Counting can start at the front.
proof fn lemma_count_from_front(sa: Seq<i32>, lo: int, hi: int)
    requires
        lo < hi,
    ensures
        count_negative_marked_in(sa, lo, hi) == bit(sa[lo] < 0) + count_negative_marked_in(sa, lo + 1, hi),
    decreases hi - lo,
{
    if lo + 1 < hi {
        lemma_count_from_front(sa, lo, hi - 1);
    } else {
        assert(count_negative_marked_in(sa, lo, lo) == 0);
        assert(count_negative_marked_in(sa, lo + 1, hi) == 0);
    }
}

/// Gathering the marked entries of a block moves them, in order and without their marks, in
/// front of slot `l`; from `l` on, and in front of the block, nothing changes.
pub proof fn law_marked_gathered(sa: Seq<i32>, m: int, l: int, start: int, size: int)
    requires
        0 <= m,
        0 <= start,
        0 <= size,
        m + start + size <= l <= sa.len() <= isize::MAX,
    ensures
        gather_marked_lms_suffixes_run(sa, m, l, start, size) is Some,
        ({
            let x = gather_marked_lms_suffixes_run(sa, m, l, start, size)->0;
            let list = marked_entries(sa, m + start, m + start + size);
            &&& x.0.len() == sa.len()
            &&& x.1 == l - list.len()
            &&& 0 <= x.1
            &&& x.0.subrange(x.1 as int, l) == list
            &&& forall|p: int| l <= p < sa.len() ==> #[trigger] x.0[p] == sa[p]
            &&& forall|p: int| 0 <= p < m + start ==> #[trigger] x.0[p] == sa[p]
        }),
{
    if size > 0 {
        lemma_marked_gathered(sa, l, m + start, m + start + size);
        let y = gather_marked_run((sa, (l - 1) as isize), m + start, m + start + size)->0;
        let x = gather_marked_lms_suffixes_run(sa, m, l, start, size)->0;
        assert(x.0 == y.0 && x.1 == y.1 + 1);
    } else {
        assert(sa.subrange(l, l) =~= Seq::empty());
    }
}

/// Gathering a range, as [`law_marked_gathered`] says.
proof fn lemma_marked_gathered(sa: Seq<i32>, l: int, lo: int, hi: int)
    requires
        0 <= lo <= hi <= l <= sa.len() <= isize::MAX,
    ensures
        gather_marked_run((sa, (l - 1) as isize), lo, hi) is Some,
        ({
            let x = gather_marked_run((sa, (l - 1) as isize), lo, hi)->0;
            let list = marked_entries(sa, lo, hi);
            &&& x.0.len() == sa.len()
            &&& list.len() <= hi - lo
            &&& x.1 == l - 1 - list.len()
            &&& x.0.subrange(x.1 + 1, l) == list
            &&& forall|p: int| l <= p < sa.len() ==> #[trigger] x.0[p] == sa[p]
            &&& forall|p: int| 0 <= p < lo ==> #[trigger] x.0[p] == sa[p]
        }),
    decreases hi - lo,
{
    if lo < hi {
        lemma_marked_gathered(sa, l, lo + 1, hi);
        let y = gather_marked_run((sa, (l - 1) as isize), lo + 1, hi)->0;
        let x = gather_marked_run((sa, (l - 1) as isize), lo, hi)->0;
        let list = marked_entries(sa, lo, hi);
        assert(lo <= y.1);
        assert(y.0[lo] == sa[lo]);
        assert(x.0.subrange(x.1 + 1, l) =~= list) by {
            let rest = marked_entries(sa, lo + 1, hi);
            assert forall|p: int| 0 <= p < list.len() implies x.0.subrange(x.1 + 1, l)[p] == list[p] by {
                if sa[lo] < 0 {
                    if p > 0 {
                        assert(list[p] == rest[p - 1]);
                        assert(y.0.subrange(y.1 + 1, l)[p - 1] == rest[p - 1]);
                    }
                } else {
                    assert(y.0.subrange(y.1 + 1, l)[p] == rest[p]);
                }
            }
        }
    } else {
        assert(sa.subrange(l, l) =~= Seq::empty());
    }
}

/// Packing the marked entries of a block puts them at its start, in order and without their
/// marks; outside the block nothing changes.
pub proof fn law_marked_packed_1k(sa: Seq<i32>, start: int, hi: int)
    requires
        0 <= start <= hi <= sa.len() <= isize::MAX,
    ensures
        partial_sorting_gather_lms_suffixes_32s_1k_slot_run((sa, start as usize), start, hi) is Some,
        ({
            let x = partial_sorting_gather_lms_suffixes_32s_1k_slot_run((sa, start as usize), start, hi)->0;
            let list = marked_entries(sa, start, hi);
            &&& x.0.len() == sa.len()
            &&& x.1 == start + list.len()
            &&& x.1 <= hi
            &&& x.0.subrange(start, x.1 as int) == list
            &&& forall|p: int| 0 <= p < start || hi <= p < sa.len() ==> #[trigger] x.0[p] == sa[p]
        }),
    decreases hi - start,
{
    if start < hi {
        law_marked_packed_1k(sa, start, hi - 1);
        lemma_marked_entries_last(sa, start, hi);
        let y = partial_sorting_gather_lms_suffixes_32s_1k_slot_run((sa, start as usize), start, hi - 1)->0;
        let x = partial_sorting_gather_lms_suffixes_32s_1k_slot_run((sa, start as usize), start, hi)->0;
        let list = marked_entries(sa, start, hi);
        let rest = marked_entries(sa, start, hi - 1);
        assert(y.0[hi - 1] == sa[hi - 1]);
        assert(x.0.subrange(start, x.1 as int) =~= list) by {
            assert forall|p: int| 0 <= p < list.len() implies x.0.subrange(start, x.1 as int)[p] == list[p] by {
                if p < rest.len() {
                    assert(y.0.subrange(start, y.1 as int)[p] == rest[p]);
                }
            }
        }
    } else {
        assert(sa.subrange(start, start) =~= Seq::empty());
    }
}

/// The last entry comes last where it is marked.
proof fn lemma_marked_entries_last(sa: Seq<i32>, lo: int, hi: int)
    requires
        lo < hi,
    ensures
        marked_entries(sa, lo, hi) == (if sa[hi - 1] < 0 {
            marked_entries(sa, lo, hi - 1).push(unmarked(sa[hi - 1]))
        } else {
            marked_entries(sa, lo, hi - 1)
        }),
    decreases hi - lo,
{
    if lo + 1 < hi {
        lemma_marked_entries_last(sa, lo + 1, hi);
        assert(marked_entries(sa, lo, hi) =~= (if sa[hi - 1] < 0 {
            marked_entries(sa, lo, hi - 1).push(unmarked(sa[hi - 1]))
        } else {
            marked_entries(sa, lo, hi - 1)
        }));
    } else {
        reveal_with_fuel(marked_entries, 2);
        assert(marked_entries(sa, lo, hi) =~= (if sa[hi - 1] < 0 {
            Seq::empty().push(unmarked(sa[hi - 1]))
        } else {
            Seq::empty()
        }));
    }
}

/// The slot behind the first `m` that half of the suffix `p` selects.
pub open spec fn name_slot(m: int, p: i32) -> int {
    m + unmarked(p) as int / 2
}

/// Naming the sorted suffixes of a block gives each the number of names that were opened before
/// it, where no two select the same slot: a mark on a suffix opens the next name.
pub proof fn law_renumbered(sa: Seq<i32>, m: int, name: i32, start: int, size: int)
    requires
        0 <= start,
        0 <= size,
        start + size <= m <= sa.len(),
        0 <= name,
        name + size <= i32::MAX,
        forall|i: int| start <= i < start + size ==> name_slot(m, #[trigger] sa[i]) < sa.len(),
        forall|i: int, j: int| start <= i < j < start + size
            ==> name_slot(m, #[trigger] sa[i]) != name_slot(m, #[trigger] sa[j]),
    ensures
        renumber_lms_suffixes_8u_run(sa, m, name, start, size) is Some,
        ({
            let x = renumber_lms_suffixes_8u_run(sa, m, name, start, size)->0;
            &&& x.0.len() == sa.len()
            &&& x.1 == name + count_negative_marked_in(sa, start, start + size)
            &&& forall|i: int| start <= i < start + size ==> x.0[name_slot(m, #[trigger] sa[i])]
                == marked((name + count_negative_marked_in(sa, start, i)) as i32, true)
            &&& x.0.subrange(0, m) == sa.subrange(0, m)
        }),
{
    lemma_renumbered(sa, m, name, start, start + size);
}

/// Naming a range, as [`law_renumbered`] says.
proof fn lemma_renumbered(sa: Seq<i32>, m: int, name: i32, start: int, hi: int)
    requires
        0 <= start <= hi <= m <= sa.len(),
        0 <= name,
        name + (hi - start) <= i32::MAX,
        forall|i: int| start <= i < hi ==> name_slot(m, #[trigger] sa[i]) < sa.len(),
        forall|i: int, j: int| start <= i < j < hi
            ==> name_slot(m, #[trigger] sa[i]) != name_slot(m, #[trigger] sa[j]),
    ensures
        renumber_lms_run(m, (sa, name), start, hi) is Some,
        0 <= count_negative_marked_in(sa, start, hi) <= hi - start,
        ({
            let x = renumber_lms_run(m, (sa, name), start, hi)->0;
            &&& x.0.len() == sa.len()
            &&& x.1 == name + count_negative_marked_in(sa, start, hi)
            &&& forall|i: int| start <= i < hi ==> x.0[name_slot(m, #[trigger] sa[i])]
                == marked((name + count_negative_marked_in(sa, start, i)) as i32, true)
            &&& x.0.subrange(0, m) == sa.subrange(0, m)
        }),
    decreases hi - start,
{
    if start < hi {
        lemma_renumbered(sa, m, name, start, hi - 1);
        let y = renumber_lms_run(m, (sa, name), start, hi - 1)->0;
        let x = renumber_lms_run(m, (sa, name), start, hi)->0;
        assert(y.0.subrange(0, m)[hi - 1] == sa.subrange(0, m)[hi - 1]);
        assert(name_slot(m, sa[hi - 1]) < sa.len());
        assert(x.0 == y.0.update(name_slot(m, sa[hi - 1]), marked(y.1, true)));
        assert forall|i: int| start <= i < hi implies x.0[name_slot(m, #[trigger] sa[i])]
            == marked((name + count_negative_marked_in(sa, start, i)) as i32, true) by {
            if i < hi - 1 {
                assert(name_slot(m, sa[i]) != name_slot(m, sa[hi - 1]));
                assert(x.0[name_slot(m, sa[i])] == y.0[name_slot(m, sa[i])]);
            }
        }
        assert(x.0.subrange(0, m) =~= y.0.subrange(0, m));
    }
}

/// The last entry from `lo` up to `i` that is not zero, or zero where there is none.
pub open spec fn last_nonzero(sa: Seq<i32>, lo: int, i: int) -> i32
    decreases i - lo,
{
    if i <= lo {
        0
    } else if sa[i - 1] != 0 {
        sa[i - 1]
    } else {
        last_nonzero(sa, lo, i - 1)
    }
}

/// In a block behind the first `m` entries, an entry keeps its mark just where the last nonzero
/// entry before it in the block is marked; outside the block nothing changes.
pub proof fn law_marks_settled(sa: Seq<i32>, m: int, start: int, size: int)
    requires
        0 <= m,
        0 <= start,
        0 <= size,
        m + start + size <= sa.len(),
    ensures
        mark_distinct_lms_suffixes_32s_run(sa, m, start, size) is Some,
        ({
            let x = mark_distinct_lms_suffixes_32s_run(sa, m, start, size)->0;
            &&& x.len() == sa.len()
            &&& forall|i: int| m + start <= i < m + start + size ==> #[trigger] x[i] == (
                if last_nonzero(sa, m + start, i) < 0 { sa[i] } else { unmarked(sa[i]) })
            &&& forall|i: int| 0 <= i < m + start || m + start + size <= i < sa.len() ==> #[trigger] x[i] == sa[i]
        }),
{
    lemma_marks_settled(sa, m + start, m + start + size);
}

/// Settling the marks of a range, as [`law_marks_settled`] says.
proof fn lemma_marks_settled(sa: Seq<i32>, lo: int, hi: int)
    requires
        0 <= lo <= hi <= sa.len(),
    ensures
        mark_distinct_run((sa, 0), lo, hi) is Some,
        ({
            let x = mark_distinct_run((sa, 0), lo, hi)->0;
            &&& x.0.len() == sa.len()
            &&& x.1 == last_nonzero(sa, lo, hi)
            &&& forall|i: int| lo <= i < hi ==> #[trigger] x.0[i] == (
                if last_nonzero(sa, lo, i) < 0 { sa[i] } else { unmarked(sa[i]) })
            &&& forall|i: int| 0 <= i < lo || hi <= i < sa.len() ==> #[trigger] x.0[i] == sa[i]
        }),
    decreases hi - lo,
{
    if lo < hi {
        lemma_marks_settled(sa, lo, hi - 1);
    }
}

/// Marking sets the mark of every entry that one of the buckets points at, and of no other.
pub proof fn law_markers_set(buckets: Seq<i32>, sa: Seq<i32>, lo: int, hi: int)
    requires
        0 <= lo <= hi <= buckets.len(),
        forall|i: int| lo <= i < hi ==> 0 <= #[trigger] buckets[i] < sa.len(),
    ensures
        radix_sort_set_markers_32s_6k_slot_run(buckets, sa, lo, hi) is Some,
        ({
            let x = radix_sort_set_markers_32s_6k_slot_run(buckets, sa, lo, hi)->0;
            &&& x.len() == sa.len()
            &&& forall|p: int| 0 <= p < sa.len() ==> #[trigger] x[p] == marked(
                sa[p], exists|i: int| lo <= i < hi && #[trigger] buckets[i] == p)
        }),
    decreases hi - lo,
{
    if lo < hi {
        law_markers_set(buckets, sa, lo, hi - 1);
        let y = radix_sort_set_markers_32s_6k_slot_run(buckets, sa, lo, hi - 1)->0;
        let x = radix_sort_set_markers_32s_6k_slot_run(buckets, sa, lo, hi)->0;
        assert(0 <= buckets[hi - 1] < sa.len());
        assert forall|p: int| 0 <= p < sa.len() implies #[trigger] x[p] == marked(
            sa[p], exists|i: int| lo <= i < hi && #[trigger] buckets[i] == p) by {
            assert(y[p] == marked(sa[p], exists|i: int| lo <= i < hi - 1 && #[trigger] buckets[i] == p));
            if p == buckets[hi - 1] {
                assert(exists|i: int| lo <= i < hi && #[trigger] buckets[i] == p);
            } else if exists|i: int| lo <= i < hi && #[trigger] buckets[i] == p {
                let i = choose|i: int| lo <= i < hi && #[trigger] buckets[i] == p;
                assert(lo <= i < hi - 1 && buckets[i] == p);
            }
        }
    } else {
        assert forall|p: int| 0 <= p < sa.len() implies #[trigger] sa[p] == marked(
            sa[p], exists|i: int| lo <= i < hi && #[trigger] buckets[i] == p) by {}
    }
}

/// Shifting moves every mark of a range one entry down; the last entry gets `mark`, and that of
/// the first is left over.
pub proof fn law_marks_shifted(sa: Seq<i32>, mark: bool, lo: int, hi: int)
    requires
        0 <= lo <= hi <= sa.len(),
    ensures
        shift_mark_run((sa, mark), lo, hi) is Some,
        ({
            let x = shift_mark_run((sa, mark), lo, hi)->0;
            &&& x.0.len() == sa.len()
            &&& x.1 == (if lo < hi { sa[lo] < 0 } else { mark })
            &&& forall|i: int| lo <= i < hi ==> #[trigger] x.0[i] == marked(
                unmarked(sa[i]), if i + 1 < hi { sa[i + 1] < 0 } else { mark })
            &&& forall|i: int| 0 <= i < lo || hi <= i < sa.len() ==> #[trigger] x.0[i] == sa[i]
        }),
    decreases hi - lo,
{
    if lo < hi {
        law_marks_shifted(sa, mark, lo + 1, hi);
    }
}

/// Placing writes the index of every cache entry of a block to the slot that its symbol names,
/// where no two name the same, and keeps all other slots.
pub proof fn law_cached_placed(cache: Seq<ThreadCache>, sa: Seq<i32>, lo: int, hi: int)
    requires
        0 <= lo <= hi <= cache.len(),
        forall|i: int| lo <= i < hi ==> 0 <= (#[trigger] cache[i]).symbol < sa.len(),
        forall|i: int, j: int| lo <= i < j < hi ==> (#[trigger] cache[i]).symbol != (#[trigger] cache[j]).symbol,
    ensures
        place_cached_run(cache, sa, lo, hi) is Some,
        ({
            let x = place_cached_run(cache, sa, lo, hi)->0;
            &&& x.len() == sa.len()
            &&& forall|i: int| lo <= i < hi ==> x[(#[trigger] cache[i]).symbol as int] == cache[i].index
            &&& forall|p: int| 0 <= p < sa.len() && (forall|i: int| lo <= i < hi ==> (#[trigger] cache[i]).symbol != p)
                ==> #[trigger] x[p] == sa[p]
        }),
    decreases hi - lo,
{
    if lo < hi {
        law_cached_placed(cache, sa, lo, hi - 1);
        let x = place_cached_run(cache, sa, lo, hi)->0;
        assert(0 <= cache[hi - 1].symbol < sa.len());
        assert forall|i: int| lo <= i < hi implies x[(#[trigger] cache[i]).symbol as int] == cache[i].index by {
            if i < hi - 1 {
                assert(cache[i].symbol != cache[hi - 1].symbol);
            }
        }
    }
}

/// The cache entries from `lo` up to `hi` whose symbol names a slot, in order.
pub open spec fn slotted(cache: Seq<ThreadCache>, lo: int, hi: int) -> Seq<ThreadCache>
    decreases hi - lo,
{
    if hi <= lo {
        Seq::empty()
    } else if cache[hi - 1].symbol >= 0 {
        slotted(cache, lo, hi - 1).push(cache[hi - 1])
    } else {
        slotted(cache, lo, hi - 1)
    }
}

/// Packing puts the entries of a block whose symbol names a slot at its start, in order.
pub proof fn law_cache_packed(cache: Seq<ThreadCache>, start: int, hi: int)
    requires
        0 <= start <= hi <= cache.len() <= usize::MAX,
    ensures
        compact_cached_run((cache, start as usize), start, hi) is Some,
        ({
            let x = compact_cached_run((cache, start as usize), start, hi)->0;
            let list = slotted(cache, start, hi);
            &&& x.0.len() == cache.len()
            &&& x.1 == start + list.len()
            &&& x.1 <= hi
            &&& x.0.subrange(start, x.1 as int) == list
            &&& forall|i: int| 0 <= i < start || hi <= i < cache.len() ==> #[trigger] x.0[i] == cache[i]
        }),
    decreases hi - start,
{
    if start < hi {
        law_cache_packed(cache, start, hi - 1);
        let y = compact_cached_run((cache, start as usize), start, hi - 1)->0;
        let x = compact_cached_run((cache, start as usize), start, hi)->0;
        assert(y.0[hi - 1] == cache[hi - 1]);
        let list = slotted(cache, start, hi);
        let rest = slotted(cache, start, hi - 1);
        assert(x.0.subrange(start, x.1 as int) =~= list) by {
            assert forall|p: int| 0 <= p < list.len() implies x.0.subrange(start, x.1 as int)[p] == list[p] by {
                if p < rest.len() {
                    assert(y.0.subrange(start, y.1 as int)[p] == rest[p]);
                }
            }
        }
    } else {
        assert(cache.subrange(start, start) =~= Seq::empty());
    }
}

/// Where the slots that symbols of a block name exist, packing and placing the block is defined.
#[verifier::spinoff_prover]
pub proof fn law_packed_and_placed(sa: Seq<i32>, cache: Seq<ThreadCache>, start: int, size: int)
    requires
        0 <= start,
        0 <= size,
        start + size <= cache.len() <= usize::MAX,
        forall|i: int| start <= i < start + size ==> (#[trigger] cache[i]).symbol < sa.len(),
        forall|i: int, j: int| start <= i < j < start + size && (#[trigger] cache[i]).symbol >= 0
            ==> cache[i].symbol != (#[trigger] cache[j]).symbol,
    ensures
        compact_and_place_run(sa, cache, start, size) is Some,
        ({
            let x = compact_and_place_run(sa, cache, start, size)->0;
            &&& x.0.len() == sa.len()
            &&& forall|i: int| start <= i < start + size && (#[trigger] cache[i]).symbol >= 0
                ==> x.0[cache[i].symbol as int] == cache[i].index
            &&& forall|p: int| 0 <= p < sa.len() && (forall|i: int|
                start <= i < start + size ==> (#[trigger] cache[i]).symbol != p) ==> #[trigger] x.0[p] == sa[p]
        }),
{
    let hi = start + size;
    law_cache_packed(cache, start, hi);
    let y = compact_cached_run((cache, start as usize), start, hi)->0;
    let list = slotted(cache, start, hi);
    lemma_slotted(cache, start, hi);
    assert forall|i: int| start <= i < y.1 implies #[trigger] y.0[i] == list[i - start] by {
        assert(y.0.subrange(start, y.1 as int)[i - start] == list[i - start]);
    }
    assert forall|i: int| start <= i < y.1 implies 0 <= (#[trigger] y.0[i]).symbol < sa.len() by {
        let e = list[i - start];
        let k = choose|k: int| start <= k < hi && #[trigger] cache[k] == e;
    }
    assert forall|i: int, j: int| start <= i < j < y.1 implies (#[trigger] y.0[i]).symbol != (#[trigger] y.0[j]).symbol by {
        assert(list[i - start].symbol != list[j - start].symbol);
    }
    law_cached_placed(y.0, sa, start, y.1 as int);
    let x = compact_and_place_run(sa, cache, start, size)->0;
    assert forall|i: int| start <= i < hi && (#[trigger] cache[i]).symbol >= 0 implies x.0[cache[i].symbol as int] == cache[i].index by {
        assert(list.contains(cache[i]));
        let k = choose|k: int| 0 <= k < list.len() && #[trigger] list[k] == cache[i];
        assert(y.0[start + k] == list[k]);
    }
    assert forall|p: int| 0 <= p < sa.len() && (forall|i: int| start <= i < hi ==> (#[trigger] cache[i]).symbol != p)
        implies #[trigger] x.0[p] == sa[p] by {
        assert forall|i: int| start <= i < y.1 implies (#[trigger] y.0[i]).symbol != p by {
            let e = list[i - start];
            let k = choose|k: int| start <= k < hi && #[trigger] cache[k] == e;
        }
    }
}

/// The entries with a slot are those of the range whose symbol names one, each once.
proof fn lemma_slotted(cache: Seq<ThreadCache>, lo: int, hi: int)
    requires
        0 <= lo <= hi <= cache.len(),
        forall|i: int, j: int| lo <= i < j < hi && (#[trigger] cache[i]).symbol >= 0
            ==> cache[i].symbol != (#[trigger] cache[j]).symbol,
    ensures
        forall|k: int| 0 <= k < slotted(cache, lo, hi).len() ==> (#[trigger] slotted(cache, lo, hi)[k]).symbol >= 0
            && exists|i: int| lo <= i < hi && #[trigger] cache[i] == slotted(cache, lo, hi)[k],
        forall|i: int| lo <= i < hi && (#[trigger] cache[i]).symbol >= 0 ==> slotted(cache, lo, hi).contains(cache[i]),
        forall|k: int, l: int| 0 <= k < l < slotted(cache, lo, hi).len()
            ==> (#[trigger] slotted(cache, lo, hi)[k]).symbol != (#[trigger] slotted(cache, lo, hi)[l]).symbol,
    decreases hi - lo,
{
    if lo < hi {
        lemma_slotted(cache, lo, hi - 1);
        let rest = slotted(cache, lo, hi - 1);
        let list = slotted(cache, lo, hi);
        assert forall|k: int| 0 <= k < list.len() implies (#[trigger] list[k]).symbol >= 0
            && exists|i: int| lo <= i < hi && #[trigger] cache[i] == list[k] by {
            if k < rest.len() {
                assert(list[k] == rest[k]);
                let i = choose|i: int| lo <= i < hi - 1 && #[trigger] cache[i] == rest[k];
                assert(cache[i] == list[k]);
            } else {
                assert(cache[hi - 1] == list[k]);
            }
        }
        assert forall|i: int| lo <= i < hi && (#[trigger] cache[i]).symbol >= 0 implies list.contains(cache[i]) by {
            if i < hi - 1 {
                assert(rest.contains(cache[i]));
                let k = choose|k: int| 0 <= k < rest.len() && #[trigger] rest[k] == cache[i];
                assert(list[k] == cache[i]);
            } else {
                assert(list[list.len() - 1] == cache[i]);
            }
        }
        assert forall|k: int, l: int| 0 <= k < l < list.len() implies (#[trigger] list[k]).symbol != (#[trigger] list[l]).symbol by {
            assert(list[k] == rest[k]);
            if l < rest.len() {
                assert(list[l] == rest[l]);
            } else {
                let i = choose|i: int| lo <= i < hi - 1 && #[trigger] cache[i] == rest[k];
                assert(cache[i].symbol != cache[hi - 1].symbol);
            }
        }
    }
}

/// Counting the suffixes of a block with a marked name is defined where every suffix selects a
/// slot, and counts each at most once.
pub proof fn law_unique_counted(sa: Seq<i32>, m: int, lo: int, hi: int)
    requires
        0 <= m,
        0 <= lo <= hi <= sa.len(),
        forall|i: int| lo <= i < hi ==> m + half(#[trigger] sa[i]) < sa.len(),
    ensures
        unique_in(sa, m, lo, hi) is Some,
        0 <= unique_in(sa, m, lo, hi)->0 <= hi - lo,
    decreases hi - lo,
{
    if lo < hi {
        law_unique_counted(sa, m, lo, hi - 1);
        assert(m + half(sa[hi - 1]) < sa.len());
    }
}

/// The marked entries of a range are those of its parts.
proof fn lemma_marked_entries_join(sa: Seq<i32>, lo: int, mid: int, hi: int)
    requires
        lo <= mid <= hi,
    ensures
        marked_entries(sa, lo, hi) == marked_entries(sa, lo, mid) + marked_entries(sa, mid, hi),
    decreases mid - lo,
{
    if lo < mid {
        lemma_marked_entries_join(sa, lo + 1, mid, hi);
    }
    assert(marked_entries(sa, lo, hi) =~= marked_entries(sa, lo, mid) + marked_entries(sa, mid, hi));
}

/// Ranges with the same entries have the same marked entries.
proof fn lemma_marked_entries_same(a: Seq<i32>, b: Seq<i32>, lo: int, hi: int)
    requires
        forall|p: int| lo <= p < hi ==> #[trigger] a[p] == b[p],
    ensures
        marked_entries(a, lo, hi) == marked_entries(b, lo, hi),
        marked_entries(a, lo, hi).len() <= (if lo < hi { hi - lo } else { 0 }),
    decreases hi - lo,
{
    if lo < hi {
        lemma_marked_entries_same(a, b, lo + 1, hi);
        assert(a[lo] == b[lo]);
    }
}

/// What worker `v` of `k` has gathered of `sa` stands in `a` where its entry `s` says.
spec fn part_gathered(sa: Seq<i32>, a: Seq<i32>, n: int, m: int, fs: int, k: int, v: int, s: ThreadState) -> bool {
    let list = marked_entries(sa, m + block_lo(n / 2, k, v), m + block_hi(n / 2, k, v));
    let end = gather_marked_end(n, m, fs, k, v);
    &&& s.count == list.len()
    &&& s.position == end - list.len()
    &&& a.subrange(s.position as int, end) == list
}

/// The workers gather in their blocks one by one.
#[verifier::spinoff_prover]
#[verifier::rlimit(40)]
proof fn lemma_parts_gathered(sa: Seq<i32>, ts: Seq<ThreadState>, n: int, m: int, fs: int, k: int, w: int)
    requires
        0 <= n,
        0 <= m,
        0 <= fs,
        m + n / 2 <= n + fs <= sa.len() <= isize::MAX,
        0 <= w <= k <= ts.len(),
        1 <= k,
    ensures
        fold_up(gather_marked_part_step(n, m, fs, k), (sa, ts), 0, w) is Some,
        ({
            let x = fold_up(gather_marked_part_step(n, m, fs, k), (sa, ts), 0, w)->0;
            &&& x.0.len() == sa.len()
            &&& x.1.len() == ts.len()
            &&& forall|v: int| 0 <= v < w ==> part_gathered(sa, x.0, n, m, fs, k, v, #[trigger] x.1[v])
            &&& w < k ==> forall|p: int| m + block_lo(n / 2, k, w) <= p < sa.len() ==> #[trigger] x.0[p] == sa[p]
            &&& forall|p: int| n + fs <= p < sa.len() || 0 <= p < m ==> #[trigger] x.0[p] == sa[p]
            &&& forall|v: int| w <= v < ts.len() ==> #[trigger] x.1[v] == ts[v]
        }),
    decreases w,
{
    let half = n / 2;
    if w == 0 {
    } else {
        let u = w - 1;
        lemma_parts_gathered(sa, ts, n, m, fs, k, u);
        law_blocks_join(half, k, u);
        let y = fold_up(gather_marked_part_step(n, m, fs, k), (sa, ts), 0, u)->0;
        let lo = block_lo(half, k, u);
        let hi = block_hi(half, k, u);
        let end = gather_marked_end(n, m, fs, k, u);
        law_marked_gathered(y.0, m, end, lo, hi - lo);
        lemma_marked_entries_same(y.0, sa, m + lo, m + hi);
        let g = gather_marked_lms_suffixes_run(y.0, m, end, lo, hi - lo)->0;
        let x = fold_up(gather_marked_part_step(n, m, fs, k), (sa, ts), 0, w)->0;
        assert(x.0 == g.0);
        assert forall|v: int| 0 <= v < w implies part_gathered(sa, x.0, n, m, fs, k, v, #[trigger] x.1[v]) by {
            if v < u {
                lemma_block_order(half, k, v, u);
                law_blocks_join(half, k, v);
                assert(x.1[v] == y.1[v]);
                assert(part_gathered(sa, y.0, n, m, fs, k, v, y.1[v]));
                let list = marked_entries(sa, m + block_lo(half, k, v), m + block_hi(half, k, v));
                lemma_marked_entries_same(sa, sa, m + block_lo(half, k, v), m + block_hi(half, k, v));
                let at = y.1[v].position as int;
                let to = gather_marked_end(n, m, fs, k, v);
                assert(x.0.subrange(at, to) =~= y.0.subrange(at, to));
            }
        }
    }
}

/// What the workers from `w` on have gathered is brought together.
#[verifier::spinoff_prover]
#[verifier::rlimit(40)]
proof fn lemma_parts_joined(sa: Seq<i32>, a: Seq<i32>, ts: Seq<ThreadState>, n: int, m: int, fs: int, k: int, w: int)
    requires
        0 <= n,
        0 <= m,
        0 <= fs,
        m + n / 2 <= n + fs <= sa.len() <= isize::MAX,
        a.len() == sa.len(),
        0 <= w <= k <= ts.len(),
        1 <= k,
        forall|v: int| 0 <= v < k ==> part_gathered(sa, a, n, m, fs, k, v, #[trigger] ts[v]),
    ensures
        fold_down(gather_marked_join_step(ts, k), (a, (n + fs) as isize), w, k) is Some,
        ({
            let x = fold_down(gather_marked_join_step(ts, k), (a, (n + fs) as isize), w, k)->0;
            let list = marked_entries(sa, m + share_start(n / 2, k, w), m + n / 2);
            &&& x.0.len() == sa.len()
            &&& x.1 == n + fs - list.len()
            &&& m + share_start(n / 2, k, w) <= x.1
            &&& x.0.subrange(x.1 as int, n + fs) == list
            &&& forall|p: int| 0 <= p < m + share_start(n / 2, k, w) ==> #[trigger] x.0[p] == a[p]
            &&& forall|p: int| n + fs <= p < sa.len() ==> #[trigger] x.0[p] == a[p]
        }),
    decreases k - w,
{
    let half = n / 2;
    let step = gather_marked_join_step(ts, k);
    let s0 = (a, (n + fs) as isize);
    if w == k {
        assert(a.subrange(n + fs, n + fs) =~= Seq::empty());
    } else {
        lemma_parts_joined(sa, a, ts, n, m, fs, k, w + 1);
        law_blocks_join(half, k, w);
        let lo = block_lo(half, k, w);
        let hi = block_hi(half, k, w);
        let y = fold_down(step, s0, w + 1, k)->0;
        let own = marked_entries(sa, m + lo, m + hi);
        let behind = marked_entries(sa, m + share_start(half, k, w + 1), m + half);
        lemma_marked_entries_same(sa, sa, m + lo, m + hi);
        lemma_marked_entries_same(sa, sa, m + hi, m + half);
        lemma_marked_entries_join(sa, m + lo, m + hi, m + half);
        assert(share_start(half, k, w + 1) == hi);
        assert(part_gathered(sa, a, n, m, fs, k, w, ts[w]));
        let at = ts[w].position as int;
        let count = ts[w].count as int;
        let list = marked_entries(sa, m + lo, m + half);
        assert(list == own + behind);
        let x = fold_down(step, s0, w, k)->0;
        assert(fold_down(step, s0, w, k) == step(y, w));
        if w + 1 < k {
            let dst = y.1 - count;
            assert(x.0.subrange(dst, n + fs) =~= list) by {
                assert forall|p: int| 0 <= p < list.len() implies x.0.subrange(dst, n + fs)[p] == list[p] by {
                    if p < own.len() {
                        assert(a.subrange(at, m + hi)[p] == own[p]);
                        assert(y.0[at + p] == a[at + p]);
                    } else {
                        assert(y.0.subrange(y.1 as int, n + fs)[p - own.len()] == behind[p - own.len()]);
                    }
                }
            }
        } else {
            assert(behind =~= Seq::empty());
            assert(list =~= own);
        }
    }
}

/// However many workers gather the marked entries among the `n / 2` behind the first `m`, they
/// stand in order and without their marks at the end of the `n + fs` slots.
pub proof fn law_marked_gathered_by_any(sa: Seq<i32>, ts: Seq<ThreadState>, n: int, m: int, fs: int, k: int)
    requires
        0 <= n,
        0 <= m,
        0 <= fs,
        m + n / 2 <= n + fs <= sa.len() <= isize::MAX,
        1 <= k,
        k == 1 || k <= ts.len(),
    ensures
        gather_marked_shared(sa, ts, n, m, fs, k) is Some,
        ({
            let x = gather_marked_shared(sa, ts, n, m, fs, k)->0;
            let list = marked_entries(sa, m, m + n / 2);
            &&& x.0.len() == sa.len()
            &&& x.0.subrange(n + fs - list.len(), n + fs) == list
            &&& forall|p: int| 0 <= p < m || n + fs <= p < sa.len() ==> #[trigger] x.0[p] == sa[p]
        }),
{
    if k == 1 {
        law_marked_gathered(sa, m, n + fs, 0, n / 2);
    } else {
        lemma_parts_gathered(sa, ts, n, m, fs, k, k);
        let x = fold_up(gather_marked_part_step(n, m, fs, k), (sa, ts), 0, k)->0;
        lemma_parts_joined(sa, x.0, x.1, n, m, fs, k, 0);
        law_blocks_join(n / 2, k, 0);
    }
}

/// However many workers name and gather, the number of names is the same, and so is the array
/// where every suffix has a name of its own; elsewhere the names stand at the end of the
/// `n + fs` slots in the same order.
pub proof fn law_renumber_and_gather_by_any(
    sa: Seq<i32>,
    ts: Seq<ThreadState>,
    n: int,
    m: int,
    fs: int,
    naming: int,
    gathering: int,
)
    requires
        0 <= n,
        0 <= m,
        0 <= fs,
        m + n / 2 <= n + fs <= sa.len() <= isize::MAX,
        1 <= gathering,
        gathering == 1 || gathering <= ts.len(),
        renumber_and_gather_run(sa, n, m, fs) is Some,
    ensures
        renumber_and_gather_shared(sa, ts, n, m, fs, naming, gathering) is Some,
        ({
            let x = renumber_and_gather_shared(sa, ts, n, m, fs, naming, gathering)->0;
            let y = renumber_and_gather_run(sa, n, m, fs)->0;
            let named = renumber_lms_suffixes_8u_run(cleared(sa, m, m + n / 2), m, 0, 0, m).unwrap().0;
            let list = marked_entries(named, m, m + n / 2);
            &&& x.2 == y.1
            &&& x.2 >= m ==> x.0 == y.0
            &&& x.2 < m ==> x.0.subrange(n + fs - list.len(), n + fs) == list
                && y.0.subrange(n + fs - list.len(), n + fs) == list
        }),
{
    let s = cleared(sa, m, m + n / 2);
    let named = renumber_lms_suffixes_8u_run(s, m, 0, 0, m)->0;
    if named.1 < m {
        assert(named.0.len() == sa.len()) by {
            lemma_renumber_length(s, m, 0, 0, m);
        }
        law_marked_gathered_by_any(named.0, naming_storage(ts, s, m, naming), n, m, fs, gathering);
        law_marked_gathered(named.0, m, n + fs, 0, n / 2);
    }
}

/// Naming keeps the number of slots.
proof fn lemma_renumber_length(sa: Seq<i32>, m: int, name: i32, lo: int, hi: int)
    requires
        renumber_lms_run(m, (sa, name), lo, hi) is Some,
    ensures
        renumber_lms_run(m, (sa, name), lo, hi).unwrap().0.len() == sa.len(),
    decreases hi - lo,
{
    if lo < hi {
        lemma_renumber_length(sa, m, name, lo, hi - 1);
    }
}

/// A marked entry with its group bit in place of its sign mark.
pub open spec fn regrouped(p: i32) -> i32 {
    if grouped(p) {
        ungrouped(p)
    } else {
        flipped(p)
    }
}

/// The marked entries from `lo` up to `hi`, in order, with their group bits in place of their
/// sign marks.
pub open spec fn regrouped_entries(sa: Seq<i32>, lo: int, hi: int) -> Seq<i32>
    decreases hi - lo,
{
    if hi <= lo {
        Seq::empty()
    } else if sa[hi - 1] < 0 {
        regrouped_entries(sa, lo, hi - 1).push(regrouped(sa[hi - 1]))
    } else {
        regrouped_entries(sa, lo, hi - 1)
    }
}

/// Packing the marked entries of a block puts them at its start, in order and with their group
/// bits in place of their sign marks; outside the block nothing changes.
pub proof fn law_marked_packed_4k(sa: Seq<i32>, start: int, hi: int)
    requires
        0 <= start <= hi <= sa.len() <= isize::MAX,
    ensures
        partial_sorting_gather_lms_suffixes_32s_4k_slot_run((sa, start as usize), start, hi) is Some,
        ({
            let x = partial_sorting_gather_lms_suffixes_32s_4k_slot_run((sa, start as usize), start, hi)->0;
            let list = regrouped_entries(sa, start, hi);
            &&& x.0.len() == sa.len()
            &&& x.1 == start + list.len()
            &&& x.1 <= hi
            &&& x.0.subrange(start, x.1 as int) == list
            &&& forall|p: int| 0 <= p < start || hi <= p < sa.len() ==> #[trigger] x.0[p] == sa[p]
        }),
    decreases hi - start,
{
    if start < hi {
        law_marked_packed_4k(sa, start, hi - 1);
        let y = partial_sorting_gather_lms_suffixes_32s_4k_slot_run((sa, start as usize), start, hi - 1)->0;
        let x = partial_sorting_gather_lms_suffixes_32s_4k_slot_run((sa, start as usize), start, hi)->0;
        let list = regrouped_entries(sa, start, hi);
        let rest = regrouped_entries(sa, start, hi - 1);
        assert(y.0[hi - 1] == sa[hi - 1]);
        assert(x.0.subrange(start, x.1 as int) =~= list) by {
            assert forall|p: int| 0 <= p < list.len() implies x.0.subrange(start, x.1 as int)[p] == list[p] by {
                if p < rest.len() {
                    assert(y.0.subrange(start, y.1 as int)[p] == rest[p]);
                }
            }
        }
    } else {
        assert(sa.subrange(start, start) =~= Seq::empty());
    }
}

/// How many of the suffixes in the slots from `lo` up to `hi` start with symbol `c`.
pub open spec fn starting_with(t: Seq<i32>, sa: Seq<i32>, c: int, lo: int, hi: int) -> int
    decreases hi - lo,
{
    if hi <= lo {
        0
    } else {
        starting_with(t, sa, c, lo + 1, hi) + bit(t[sa[lo] as int] == c)
    }
}

/// Whether the slots from `lo` up to `hi` hold suffixes whose buckets have room: those of each
/// symbol fit in front of its end, apart from those of the other symbols and from the slots
/// themselves.
pub open spec fn sortable(t: Seq<i32>, sa: Seq<i32>, b: Seq<i32>, lo: int, hi: int) -> bool {
    &&& 0 <= lo <= hi <= sa.len()
    &&& forall|i: int| lo <= i < hi ==> 0 <= #[trigger] sa[i] < t.len()
    &&& forall|p: int| 0 <= p < t.len() ==> 0 <= #[trigger] t[p] && 2 * t[p] < b.len()
    &&& forall|c: int| 0 <= c && 2 * c < b.len() ==> 0 <= #[trigger] bucket_front(t, sa, b, c, lo, hi)
        && b[2 * c] <= sa.len() && (b[2 * c] <= lo || hi <= bucket_front(t, sa, b, c, lo, hi))
    &&& forall|c: int, d: int| 0 <= c && 2 * c < b.len() && 0 <= d && 2 * d < b.len() && c != d
        ==> b[2 * c] <= #[trigger] bucket_front(t, sa, b, d, lo, hi) || b[2 * d] <= #[trigger] bucket_front(t, sa, b, c, lo, hi)
}

/// Where the suffixes of the slots from `lo` up to `hi` that start with `c` come to start.
pub open spec fn bucket_front(t: Seq<i32>, sa: Seq<i32>, b: Seq<i32>, c: int, lo: int, hi: int) -> int {
    b[2 * c] - starting_with(t, sa, c, lo, hi)
}

/// Counts are not negative, and grow with the range.
proof fn lemma_starting_with(t: Seq<i32>, sa: Seq<i32>, c: int, lo: int, mid: int, hi: int)
    requires
        lo <= mid <= hi,
    ensures
        0 <= starting_with(t, sa, c, mid, hi) <= starting_with(t, sa, c, lo, hi),
    decreases hi - lo,
{
    if lo < mid {
        lemma_starting_with(t, sa, c, lo + 1, mid, hi);
    } else if lo < hi {
        lemma_starting_with(t, sa, c, lo + 1, lo + 1, hi);
    }
}

/// Sorting by the first symbol puts the suffix of each slot in front of the end of its bucket by
/// as many slots as suffixes from there on share its symbol, so that suffixes with the same
/// symbol keep their order; the buckets are left with their fronts.
#[verifier::spinoff_prover]
#[verifier::rlimit(40)]
pub proof fn law_radix_sorted(t: Seq<i32>, sa: Seq<i32>, b: Seq<i32>, lo: int, mid: int, hi: int)
    requires
        sortable(t, sa, b, lo, hi),
        lo <= mid <= hi,
    ensures
        radix_sort_lms_suffixes_32s_2k_run(t, (sa, b), mid, hi - mid) is Some,
        ({
            let x = radix_sort_lms_suffixes_32s_2k_run(t, (sa, b), mid, hi - mid)->0;
            &&& x.0.len() == sa.len()
            &&& x.1.len() == b.len()
            &&& forall|i: int| mid <= i < hi ==> x.0[bucket_front(t, sa, b, t[(#[trigger] sa[i]) as int] as int, i, hi)] == sa[i]
            &&& x.0.subrange(lo, hi) == sa.subrange(lo, hi)
            &&& forall|c: int| 0 <= c && 2 * c < b.len() ==> x.1[2 * c] == #[trigger] bucket_front(t, sa, b, c, mid, hi)
        }),
    decreases hi - mid,
{
    let step = radix_sort_lms_suffixes_32s_2k_step(t);
    if mid < hi {
        law_radix_sorted(t, sa, b, lo, mid + 1, hi);
        let y = fold_down(step, (sa, b), mid + 1, hi)->0;
        assert(y == radix_sort_lms_suffixes_32s_2k_run(t, (sa, b), mid + 1, hi - (mid + 1))->0);
        assert(y.0.subrange(lo, hi)[mid - lo] == sa.subrange(lo, hi)[mid - lo]);
        let p = sa[mid];
        assert(0 <= p < t.len());
        let c = t[p as int] as int;
        assert(0 <= c && 2 * c < b.len());
        let slot = bucket_front(t, sa, b, c, mid, hi);
        assert(slot == bucket_front(t, sa, b, c, mid + 1, hi) - 1);
        lemma_starting_with(t, sa, c, lo, mid, hi);
        lemma_starting_with(t, sa, c, mid + 1, mid + 1, hi);
        assert(bucket_front(t, sa, b, c, lo, hi) <= slot < b[2 * c]);
        assert(y.1[2 * c] == bucket_front(t, sa, b, c, mid + 1, hi));
        let x = fold_down(step, (sa, b), mid, hi)->0;
        assert(x == (y.0.update(slot, p), y.1.update(2 * c, slot as i32)));
        assert(x.0.subrange(lo, hi) =~= y.0.subrange(lo, hi));
        assert forall|i: int| mid <= i < hi implies x.0[bucket_front(t, sa, b, t[(#[trigger] sa[i]) as int] as int, i, hi)] == sa[i] by {
            if i > mid {
                let d = t[sa[i] as int] as int;
                assert(0 <= sa[i] < t.len());
                assert(0 <= d && 2 * d < b.len());
                let at = bucket_front(t, sa, b, d, i, hi);
                lemma_starting_with(t, sa, d, lo, i, hi);
                lemma_starting_with(t, sa, d, mid + 1, i, hi);
                lemma_starting_with(t, sa, d, i + 1, i + 1, hi);
                assert(bucket_front(t, sa, b, d, lo, hi) <= at < b[2 * d]);
                if d == c {
                    assert(slot < at);
                } else {
                    assert(b[2 * c] <= bucket_front(t, sa, b, d, lo, hi) || b[2 * d] <= bucket_front(t, sa, b, c, lo, hi));
                }
            }
        }
        assert forall|e: int| 0 <= e && 2 * e < b.len() implies x.1[2 * e] == #[trigger] bucket_front(t, sa, b, e, mid, hi) by {
            assert(y.1[2 * e] == bucket_front(t, sa, b, e, mid + 1, hi));
        }
    } else {
        assert(fold_down(step, (sa, b), mid, hi) == Some((sa, b)));
        assert forall|e: int| 0 <= e && 2 * e < b.len() implies b[2 * e] == #[trigger] bucket_front(t, sa, b, e, mid, hi) by {}
    }
}

/// Filling gives the empty slots of a block, in order, the suffixes that stand from slot `at`,
/// and keeps all other slots.
pub proof fn law_empty_slots_filled(sa: Seq<i32>, at: int, lo: int, hi: int)
    requires
        0 <= lo <= hi <= at < sa.len() <= usize::MAX,
        at + count_zero_marked_in(sa, lo, hi) < sa.len(),
    ensures
        merge_nonunique_run((sa, sa[at], (at + 1) as usize), lo, hi) is Some,
        0 <= count_zero_marked_in(sa, lo, hi),
        ({
            let x = merge_nonunique_run((sa, sa[at], (at + 1) as usize), lo, hi)->0;
            let filled = count_zero_marked_in(sa, lo, hi);
            &&& x.0.len() == sa.len()
            &&& x.1 == sa[at + filled]
            &&& x.2 == at + filled + 1
            &&& forall|i: int| lo <= i < hi ==> #[trigger] x.0[i] == (if sa[i] == 0 {
                sa[at + count_zero_marked_in(sa, lo, i)]
            } else {
                sa[i]
            })
            &&& forall|i: int| 0 <= i < lo || hi <= i < sa.len() ==> #[trigger] x.0[i] == sa[i]
        }),
    decreases hi - lo,
{
    if lo < hi {
        law_empty_slots_filled(sa, at, lo, hi - 1);
        let y = merge_nonunique_run((sa, sa[at], (at + 1) as usize), lo, hi - 1)->0;
        assert(y.0[hi - 1] == sa[hi - 1]);
        assert(y.2 < sa.len() || sa[hi - 1] != 0);
        if sa[hi - 1] == 0 {
            assert(y.0[y.2 as int] == sa[y.2 as int]);
        }
    }
}

} // verus!
