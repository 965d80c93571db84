//! Induced sorting of integer texts sorts, however many buckets there are for each symbol.

use vstd::prelude::*;
use crate::four_sort::law_four_buckets_sort;
use crate::gather::text32;
use crate::induction::symbols_below;
use crate::main_32s::{induced, layout};
use crate::one_bucket::law_one_bucket_sorts;
use crate::order::is_suffix_array;
use crate::six_sort::law_six_buckets_sort;
use crate::two_buckets::law_two_buckets_sort;

verus! {

/// Induced sorting of an integer text never fails, ends in its suffix array, and leaves the text
/// as it was.
pub proof fn law_integers_sort(t: Seq<i32>, sa: Seq<i32>, k: int, fs: int, ok: bool, u: Seq<i32>, r: Seq<i32>)
    requires
        2 <= t.len(),
        0 <= fs,
        t.len() + fs <= sa.len() <= isize::MAX,
        t.len() + fs <= i32::MAX,
        symbols_below(t, k),
        k <= i32::MAX,
        induced(t, sa, t.len() as int, k, fs, ok, u, r),
    ensures
        ok,
        u == t,
        is_suffix_array(text32(t), r.subrange(0, t.len() as int)),
{
    assert(0 <= t[0] < k);
    let lanes = layout(t.len() as int, k, fs);
    if lanes == 6 {
        law_six_buckets_sort(t, sa, k, fs, ok, u, r);
    } else if lanes == 4 {
        law_four_buckets_sort(t, sa, k, fs, ok, u, r);
    } else if lanes == 2 {
        law_two_buckets_sort(t, sa, k, fs, ok, u, r);
    } else {
        law_one_bucket_sorts(t, sa, k, fs, ok, u, r);
    }
}

} // verus!
