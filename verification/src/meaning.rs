//! What the results of the public functions mean, in terms of their arguments alone.

use vstd::prelude::*;
use vstd::arithmetic::power2::{lemma2_to64, lemma_pow2_strictly_increases, lemma_pow2_unfold, pow2};
use crate::api::{
    bwt_refused, rest_kept, samples_refused, short_table, sort_refused, sorts, tail_kept, unclosed,
};
use crate::blocks::{block_hi, block_lo, block_stride, law_blocks_join, workers};
use crate::byte_sort::lemma_byte_gathered;
use crate::bytes::{
    bwt_byte, bwt_from, frequencies, frequency_sum, is_bwt, is_bwt_aux, law_frequencies_add_up, occurrences,
    sample_count, samples_from, separated_text, sorted_text, valid_rate, well_separated,
};
use crate::context::{empty_state, normalized};
use crate::fold::fold_up;
use crate::gather::{count_and_gather_lms_suffixes_8u_run, text32, text8};
use crate::gather_omp::{rounded_up, truncated_quotient};
use crate::kinds::{is_lms, law_counted_and_gathered_8u};
use crate::laws::law_suffix_array_exists;
use crate::main_8u::{gathered_8u, refused_slots};
use crate::order::{
    is_suffix_array, law_suffix_array_complete, law_suffix_array_unique, lemma_less_irreflexive, lemma_less_total,
    lemma_suffix_array_distinct, suffix_less,
};
use crate::marks::{fits, flipped, grouped, marked, ungrouped, unmarked, with_group};
use crate::plcp::{block_end, common_prefix, is_plcp, law_common_prefix_longest, reordered, selects, shared_with_previous};
use crate::renumber::clamped;
use crate::sweeps_32s::{full_span, part_span};
use crate::types::{
    separated, workers_wf, Context, SaSint, ThreadState, UnbwtContext, ALPHABET_SIZE, LIBSAIS_FLAGS_BWT, LIBSAIS_FLAGS_GSA,
    LIBSAIS_FLAGS_NONE, LIBSAIS_PER_THREAD_CACHE_SIZE, SAINT_MAX, SAINT_MIN, SUFFIX_GROUP_MARKER,
};
use crate::unbwt::{
    as_rows, blocks_run, blocks_step, core_tables, decode_many, decode_run, decode_step, decoded, inverted, last_block,
    lemma_last_block, refused, samples_valid, zero_rows,
};
use crate::unbwt_parallel::SEGMENT;
use crate::unbwt_tables::{fast_shift, frequencies_given, Tables, BIGRAMS};
use crate::walks::{half_span, worker_span};

verus! {

/// Where the suffix at `i` comes before the one at `j`, they part behind a shared prefix.
proof fn lemma_parted(x: Seq<int>, i: int, j: int) -> (d: int)
    requires
        0 <= i <= x.len(),
        0 <= j <= x.len(),
        suffix_less(x, i, j),
    ensures
        0 <= d,
        i + d <= x.len(),
        j + d < x.len(),
        forall|y: int| 0 <= y < d ==> #[trigger] x[i + y] == x[j + y],
        i + d == x.len() || x[i + d] < x[j + d],
    decreases x.len() - i,
{
    if i < x.len() && x[i] == x[j] {
        let d = lemma_parted(x, i + 1, j + 1);
        assert forall|y: int| 0 <= y < d + 1 implies #[trigger] x[i + y] == x[j + y] by {
            if y > 0 {
                assert(x[(i + 1) + (y - 1)] == x[(j + 1) + (y - 1)]);
            }
        }
        d + 1
    } else {
        0
    }
}

/// Suffixes that part behind a shared prefix are ordered by what follows there.
proof fn lemma_parts(x: Seq<int>, i: int, j: int, d: int)
    requires
        0 <= i,
        0 <= j,
        0 <= d,
        i + d <= x.len(),
        j + d < x.len(),
        forall|y: int| 0 <= y < d ==> #[trigger] x[i + y] == x[j + y],
        i + d == x.len() || x[i + d] < x[j + d],
    ensures
        suffix_less(x, i, j),
    decreases d,
{
    if d > 0 {
        assert(x[i + 0] == x[j + 0]);
        assert forall|y: int| 0 <= y < d - 1 implies #[trigger] x[(i + 1) + y] == x[(j + 1) + y] by {
            assert(x[i + (y + 1)] == x[j + (y + 1)]);
        }
        lemma_parts(x, i + 1, j + 1, d - 1);
    }
}

/// Suffixes with the same first `d` symbols share a prefix of that length.
proof fn lemma_shared<A>(t: Seq<A>, i: int, j: int, d: int) -> (w: Seq<A>)
    requires
        0 <= i,
        0 <= j,
        0 <= d,
        i + d <= t.len(),
        j + d <= t.len(),
        forall|y: int| 0 <= y < d ==> #[trigger] t[i + y] == t[j + y],
    ensures
        w.len() == d,
        w.is_prefix_of(t.skip(i)),
        w.is_prefix_of(t.skip(j)),
        forall|y: int| 0 <= y < d ==> #[trigger] w[y] == t[i + y],
{
    let w = t.subrange(i, i + d);
    let b = t.skip(j).subrange(0, d);
    assert(w =~= t.skip(i).subrange(0, d));
    assert forall|y: int| 0 <= y < d implies w[y] == b[y] by {
        assert(t[i + y] == t[j + y]);
    }
    assert(w =~= b);
    w
}

/// The symbols of a shared prefix.
proof fn lemma_share<A>(t: Seq<A>, i: int, j: int, w: Seq<A>, y: int)
    requires
        0 <= i <= t.len(),
        0 <= j <= t.len(),
        w.is_prefix_of(t.skip(i)),
        w.is_prefix_of(t.skip(j)),
        0 <= y < w.len(),
    ensures
        i + w.len() <= t.len(),
        j + w.len() <= t.len(),
        t[i + y] == w[y],
        t[j + y] == w[y],
{
    assert(t.skip(i).subrange(0, w.len() as int)[y] == w[y]);
    assert(t.skip(j).subrange(0, w.len() as int)[y] == w[y]);
}

/// A suffix of a byte text comes before another just where, behind a shared prefix, it ends or
/// goes on with a lower byte.
pub proof fn law_bytes_compared(t: Seq<u8>, i: int, j: int)
    requires
        0 <= i <= t.len(),
        0 <= j <= t.len(),
    ensures
        suffix_less(text8(t), i, j) <==> exists|w: Seq<u8>|
            #[trigger] w.is_prefix_of(t.skip(i)) && w.is_prefix_of(t.skip(j)) && j + w.len() < t.len()
            && (i + w.len() == t.len() || t[i + w.len()] < t[j + w.len()]),
{
    let x = text8(t);
    assert(x.len() == t.len());
    if suffix_less(x, i, j) {
        let d = lemma_parted(x, i, j);
        assert forall|y: int| 0 <= y < d implies #[trigger] t[i + y] == t[j + y] by {
            assert(x[i + y] == x[j + y]);
        }
        let w = lemma_shared(t, i, j, d);
        assert(w.is_prefix_of(t.skip(i)));
    }
    if exists|w: Seq<u8>|
        #[trigger] w.is_prefix_of(t.skip(i)) && w.is_prefix_of(t.skip(j)) && j + w.len() < t.len()
        && (i + w.len() == t.len() || t[i + w.len()] < t[j + w.len()]) {
        let w = choose|w: Seq<u8>|
            #[trigger] w.is_prefix_of(t.skip(i)) && w.is_prefix_of(t.skip(j)) && j + w.len() < t.len()
            && (i + w.len() == t.len() || t[i + w.len()] < t[j + w.len()]);
        assert forall|y: int| 0 <= y < w.len() implies #[trigger] x[i + y] == x[j + y] by {
            lemma_share(t, i, j, w, y);
        }
        lemma_parts(x, i, j, w.len() as int);
    }
}

/// An array starts with the suffix array of a byte text just where its first slots list
/// positions of the text, each one before the next in the order of bytes.
#[verifier::spinoff_prover]
#[verifier::rlimit(30)]
pub proof fn law_bytes_sorted(t: Seq<u8>, sa: Seq<i32>)
    ensures
        sorts(text8(t), sa) <==> {
            &&& t.len() <= sa.len()
            &&& forall|k: int| 0 <= k < t.len() ==> 0 <= #[trigger] sa[k] < t.len()
            &&& forall|k: int, l: int| #![trigger sa[k], sa[l]] 0 <= k < l < t.len() ==> sa[k] != sa[l] && exists|w: Seq<u8>|
                #[trigger] w.is_prefix_of(t.skip(sa[k] as int)) && w.is_prefix_of(t.skip(sa[l] as int)) && sa[l] + w.len() < t.len()
                && (sa[k] + w.len() == t.len() || t[sa[k] + w.len()] < t[sa[l] + w.len()])
        },
{
    let n = t.len() as int;
    let x = text8(t);
    assert(x.len() == n);
    if n <= sa.len() {
        let s = sa.subrange(0, n);
        if sorts(x, sa) {
            assert forall|k: int| 0 <= k < n implies 0 <= #[trigger] sa[k] < n by {
                assert(0 <= s[k] < x.len());
            }
            assert forall|k: int, l: int| #![trigger sa[k], sa[l]] 0 <= k < l < n implies sa[k] != sa[l] && exists|w: Seq<u8>|
                #[trigger] w.is_prefix_of(t.skip(sa[k] as int)) && w.is_prefix_of(t.skip(sa[l] as int)) && sa[l] + w.len() < t.len()
                && (sa[k] + w.len() == t.len() || t[sa[k] + w.len()] < t[sa[l] + w.len()]) by {
                assert(0 <= s[k] < x.len() && 0 <= s[l] < x.len());
                assert(suffix_less(x, s[k] as int, s[l] as int));
                lemma_less_irreflexive(x, sa[k] as int);
                law_bytes_compared(t, sa[k] as int, sa[l] as int);
            }
        }
        if (forall|k: int| 0 <= k < n ==> 0 <= #[trigger] sa[k] < n) && (forall|k: int, l: int|
            #![trigger sa[k], sa[l]]
            0 <= k < l < n ==> sa[k] != sa[l] && exists|w: Seq<u8>|
                #[trigger] w.is_prefix_of(t.skip(sa[k] as int)) && w.is_prefix_of(t.skip(sa[l] as int)) && sa[l] + w.len() < t.len()
                && (sa[k] + w.len() == t.len() || t[sa[k] + w.len()] < t[sa[l] + w.len()])) {
            assert forall|k: int| 0 <= k < s.len() implies 0 <= #[trigger] s[k] < x.len() by {
                assert(s[k] == sa[k]);
            }
            assert forall|k: int, l: int| 0 <= k < l < s.len() implies suffix_less(x, #[trigger] s[k] as int, #[trigger] s[l] as int) by {
                assert(s[k] == sa[k] && s[l] == sa[l]);
                assert(0 <= sa[k] < n && 0 <= sa[l] < n);
                law_bytes_compared(t, sa[k] as int, sa[l] as int);
            }
            assert(sorts(x, sa));
        }
    }
}

/// A suffix of an integer text comes before another just where, behind a shared prefix, it ends
/// or goes on with a lower symbol.
pub proof fn law_integers_compared(t: Seq<i32>, i: int, j: int)
    requires
        0 <= i <= t.len(),
        0 <= j <= t.len(),
    ensures
        suffix_less(text32(t), i, j) <==> exists|w: Seq<i32>|
            #[trigger] w.is_prefix_of(t.skip(i)) && w.is_prefix_of(t.skip(j)) && j + w.len() < t.len()
            && (i + w.len() == t.len() || t[i + w.len()] < t[j + w.len()]),
{
    let x = text32(t);
    assert(x.len() == t.len());
    if suffix_less(x, i, j) {
        let d = lemma_parted(x, i, j);
        assert forall|y: int| 0 <= y < d implies #[trigger] t[i + y] == t[j + y] by {
            assert(x[i + y] == x[j + y]);
        }
        let w = lemma_shared(t, i, j, d);
        assert(w.is_prefix_of(t.skip(i)));
    }
    if exists|w: Seq<i32>|
        #[trigger] w.is_prefix_of(t.skip(i)) && w.is_prefix_of(t.skip(j)) && j + w.len() < t.len()
        && (i + w.len() == t.len() || t[i + w.len()] < t[j + w.len()]) {
        let w = choose|w: Seq<i32>|
            #[trigger] w.is_prefix_of(t.skip(i)) && w.is_prefix_of(t.skip(j)) && j + w.len() < t.len()
            && (i + w.len() == t.len() || t[i + w.len()] < t[j + w.len()]);
        assert forall|y: int| 0 <= y < w.len() implies #[trigger] x[i + y] == x[j + y] by {
            lemma_share(t, i, j, w, y);
        }
        lemma_parts(x, i, j, w.len() as int);
    }
}

/// An array starts with the suffix array of an integer text just where its first slots list
/// positions of the text, each one before the next in the order of symbols.
#[verifier::spinoff_prover]
#[verifier::rlimit(30)]
pub proof fn law_integers_sorted(t: Seq<i32>, sa: Seq<i32>)
    ensures
        sorts(text32(t), sa) <==> {
            &&& t.len() <= sa.len()
            &&& forall|k: int| 0 <= k < t.len() ==> 0 <= #[trigger] sa[k] < t.len()
            &&& forall|k: int, l: int| #![trigger sa[k], sa[l]] 0 <= k < l < t.len() ==> sa[k] != sa[l] && exists|w: Seq<i32>|
                #[trigger] w.is_prefix_of(t.skip(sa[k] as int)) && w.is_prefix_of(t.skip(sa[l] as int)) && sa[l] + w.len() < t.len()
                && (sa[k] + w.len() == t.len() || t[sa[k] + w.len()] < t[sa[l] + w.len()])
        },
{
    let n = t.len() as int;
    let x = text32(t);
    assert(x.len() == n);
    if n <= sa.len() {
        let s = sa.subrange(0, n);
        if sorts(x, sa) {
            assert forall|k: int| 0 <= k < n implies 0 <= #[trigger] sa[k] < n by {
                assert(0 <= s[k] < x.len());
            }
            assert forall|k: int, l: int| #![trigger sa[k], sa[l]] 0 <= k < l < n implies sa[k] != sa[l] && exists|w: Seq<i32>|
                #[trigger] w.is_prefix_of(t.skip(sa[k] as int)) && w.is_prefix_of(t.skip(sa[l] as int)) && sa[l] + w.len() < t.len()
                && (sa[k] + w.len() == t.len() || t[sa[k] + w.len()] < t[sa[l] + w.len()]) by {
                assert(0 <= s[k] < x.len() && 0 <= s[l] < x.len());
                assert(suffix_less(x, s[k] as int, s[l] as int));
                lemma_less_irreflexive(x, sa[k] as int);
                law_integers_compared(t, sa[k] as int, sa[l] as int);
            }
        }
        if (forall|k: int| 0 <= k < n ==> 0 <= #[trigger] sa[k] < n) && (forall|k: int, l: int|
            #![trigger sa[k], sa[l]]
            0 <= k < l < n ==> sa[k] != sa[l] && exists|w: Seq<i32>|
                #[trigger] w.is_prefix_of(t.skip(sa[k] as int)) && w.is_prefix_of(t.skip(sa[l] as int)) && sa[l] + w.len() < t.len()
                && (sa[k] + w.len() == t.len() || t[sa[k] + w.len()] < t[sa[l] + w.len()])) {
            assert forall|k: int| 0 <= k < s.len() implies 0 <= #[trigger] s[k] < x.len() by {
                assert(s[k] == sa[k]);
            }
            assert forall|k: int, l: int| 0 <= k < l < s.len() implies suffix_less(x, #[trigger] s[k] as int, #[trigger] s[l] as int) by {
                assert(s[k] == sa[k] && s[l] == sa[l]);
                assert(0 <= sa[k] < n && 0 <= sa[l] < n);
                law_integers_compared(t, sa[k] as int, sa[l] as int);
            }
            assert(sorts(x, sa));
        }
    }
}

/// In separated texts a suffix comes before another just where, behind a shared prefix within
/// its text, it goes on with a lower byte, or both texts end and its own is the earlier one.
pub proof fn law_separated_compared(t: Seq<u8>, i: int, j: int)
    requires
        t.len() > 0,
        t[t.len() - 1] == 0,
        0 <= i < t.len(),
        0 <= j < t.len(),
    ensures
        suffix_less(separated_text(t), i, j) <==> exists|w: Seq<u8>|
            #[trigger] w.is_prefix_of(t.skip(i)) && w.is_prefix_of(t.skip(j)) && !w.contains(0)
            && i + w.len() < t.len() && j + w.len() < t.len() && (t[i + w.len()] < t[j + w.len()]
            || t[i + w.len()] == 0 && t[j + w.len()] == 0 && i < j),
{
    let x = separated_text(t);
    assert(x.len() == t.len());
    if suffix_less(x, i, j) {
        if i == j {
            lemma_less_irreflexive(x, i);
        }
        let d = lemma_parted(x, i, j);
        assert forall|y: int| 0 <= y < d implies #[trigger] t[i + y] == t[j + y] && t[i + y] != 0 by {
            assert(x[i + y] == x[j + y]);
        }
        let w = lemma_shared(t, i, j, d);
        if i + d == t.len() {
            assert(t[i + (d - 1)] != 0);
        }
        if w.contains(0) {
            let y = choose|y: int| 0 <= y < w.len() && w[y] == 0;
            assert(t[i + y] == 0);
        }
        assert(w.is_prefix_of(t.skip(i)));
    }
    if exists|w: Seq<u8>|
        #[trigger] w.is_prefix_of(t.skip(i)) && w.is_prefix_of(t.skip(j)) && !w.contains(0)
        && i + w.len() < t.len() && j + w.len() < t.len() && (t[i + w.len()] < t[j + w.len()]
        || t[i + w.len()] == 0 && t[j + w.len()] == 0 && i < j) {
        let w = choose|w: Seq<u8>|
            #[trigger] w.is_prefix_of(t.skip(i)) && w.is_prefix_of(t.skip(j)) && !w.contains(0)
            && i + w.len() < t.len() && j + w.len() < t.len() && (t[i + w.len()] < t[j + w.len()]
            || t[i + w.len()] == 0 && t[j + w.len()] == 0 && i < j);
        assert forall|y: int| 0 <= y < w.len() implies #[trigger] x[i + y] == x[j + y] by {
            lemma_share(t, i, j, w, y);
            assert(w.contains(w[y]));
        }
        lemma_parts(x, i, j, w.len() as int);
    }
}

/// An array starts with the suffix array of separated texts just where its first slots list
/// positions of the texts, each one before the next: by its bytes up to the end of its text, and
/// by the order of the texts where these agree.
#[verifier::spinoff_prover]
#[verifier::rlimit(30)]
pub proof fn law_separated_sorted(t: Seq<u8>, sa: Seq<i32>)
    requires
        t.len() > 0,
        t[t.len() - 1] == 0,
    ensures
        sorts(separated_text(t), sa) <==> {
            &&& t.len() <= sa.len()
            &&& forall|k: int| 0 <= k < t.len() ==> 0 <= #[trigger] sa[k] < t.len()
            &&& forall|k: int, l: int| #![trigger sa[k], sa[l]] 0 <= k < l < t.len() ==> sa[k] != sa[l] && exists|w: Seq<u8>|
                #[trigger] w.is_prefix_of(t.skip(sa[k] as int)) && w.is_prefix_of(t.skip(sa[l] as int)) && !w.contains(0)
                && sa[k] + w.len() < t.len() && sa[l] + w.len() < t.len() && (t[sa[k] + w.len()] < t[sa[l] + w.len()]
                || t[sa[k] + w.len()] == 0 && t[sa[l] + w.len()] == 0 && sa[k] < sa[l])
        },
{
    let n = t.len() as int;
    let x = separated_text(t);
    assert(x.len() == n);
    if n <= sa.len() {
        let s = sa.subrange(0, n);
        if sorts(x, sa) {
            assert forall|k: int| 0 <= k < n implies 0 <= #[trigger] sa[k] < n by {
                assert(0 <= s[k] < x.len());
            }
            assert forall|k: int, l: int| #![trigger sa[k], sa[l]] 0 <= k < l < n implies sa[k] != sa[l] && exists|w: Seq<u8>|
                #[trigger] w.is_prefix_of(t.skip(sa[k] as int)) && w.is_prefix_of(t.skip(sa[l] as int)) && !w.contains(0)
                && sa[k] + w.len() < t.len() && sa[l] + w.len() < t.len() && (t[sa[k] + w.len()] < t[sa[l] + w.len()]
                || t[sa[k] + w.len()] == 0 && t[sa[l] + w.len()] == 0 && sa[k] < sa[l]) by {
                assert(0 <= s[k] < x.len() && 0 <= s[l] < x.len());
                assert(suffix_less(x, s[k] as int, s[l] as int));
                lemma_less_irreflexive(x, sa[k] as int);
                law_separated_compared(t, sa[k] as int, sa[l] as int);
            }
        }
        if (forall|k: int| 0 <= k < n ==> 0 <= #[trigger] sa[k] < n) && (forall|k: int, l: int|
            #![trigger sa[k], sa[l]]
            0 <= k < l < n ==> sa[k] != sa[l] && exists|w: Seq<u8>|
                #[trigger] w.is_prefix_of(t.skip(sa[k] as int)) && w.is_prefix_of(t.skip(sa[l] as int)) && !w.contains(0)
                && sa[k] + w.len() < t.len() && sa[l] + w.len() < t.len() && (t[sa[k] + w.len()] < t[sa[l] + w.len()]
                || t[sa[k] + w.len()] == 0 && t[sa[l] + w.len()] == 0 && sa[k] < sa[l])) {
            assert forall|k: int| 0 <= k < s.len() implies 0 <= #[trigger] s[k] < x.len() by {
                assert(s[k] == sa[k]);
            }
            assert forall|k: int, l: int| 0 <= k < l < s.len() implies suffix_less(x, #[trigger] s[k] as int, #[trigger] s[l] as int) by {
                assert(s[k] == sa[k] && s[l] == sa[l]);
                assert(0 <= sa[k] < n && 0 <= sa[l] < n);
                law_separated_compared(t, sa[k] as int, sa[l] as int);
            }
            assert(sorts(x, sa));
        }
    }
}

/// A suffix array of a text is an array as long as the text that starts with it.
pub proof fn law_whole_array(x: Seq<int>, sa: Seq<i32>)
    ensures
        is_suffix_array(x, sa) <==> sorts(x, sa) && sa.len() == x.len(),
{
    if sa.len() == x.len() {
        assert(sa.subrange(0, x.len() as int) =~= sa);
    }
}

/// A suffix array lists every position of its text, and each of them once.
pub proof fn law_positions_listed_once(x: Seq<int>, sa: Seq<i32>, p: int)
    requires
        sorts(x, sa),
        0 <= p < x.len(),
    ensures
        exists|k: int| 0 <= k < x.len() && #[trigger] sa[k] == p,
        forall|k: int, l: int| 0 <= k < x.len() && 0 <= l < x.len() && #[trigger] sa[k] == p && #[trigger] sa[l] == p ==> k == l,
{
    let n = x.len() as int;
    let s = sa.subrange(0, n);
    law_suffix_array_complete(x, s, p);
    let k = choose|k: int| 0 <= k < s.len() && #[trigger] s[k] == p;
    assert(sa[k] == p);
    assert forall|k: int, l: int| 0 <= k < n && 0 <= l < n && #[trigger] sa[k] == p && #[trigger] sa[l] == p implies k == l by {
        assert(s[k] == p && s[l] == p);
        lemma_suffix_array_distinct(x, s, k, l);
    }
}

/// Sorting is refused just where fewer than no spare slots are asked for, where the slots do not
/// hold the text and the spare ones, or where a table of fewer than 256 entries is given.
pub proof fn law_sort_refusals(n: int, slots: int, fs: int, freq: Option<&mut [SaSint]>)
    ensures
        sort_refused(n, slots, fs, freq) <==> !(fs >= 0 && slots >= n + fs && (freq matches Some(f) ==> f.len() >= 256)),
        short_table(freq) <==> freq is Some && freq->0.len() < 256,
{
}

/// Transforming is refused just where the bytes do not hold the text, where fewer than no spare
/// slots are asked for, where the slots do not hold the text and the spare ones, or where a table
/// of fewer than 256 entries is given.
pub proof fn law_transform_refusals(n: int, bytes: int, slots: int, fs: int, freq: Option<&mut [SaSint]>)
    ensures
        bwt_refused(n, bytes, slots, fs, freq) <==> !(bytes >= n && fs >= 0 && slots >= n + fs && (
        freq matches Some(f) ==> f.len() >= 256)),
{
}

/// Twice a power of two is one.
proof fn lemma_rate_doubled(r: i32)
    requires
        1 <= r <= 0x2000_0000,
        r & ((r - 1) as i32) == 0,
    ensures
        (2 * r) as i32 & ((2 * r - 1) as i32) == 0,
{
    assert(1 <= r <= 0x2000_0000 && r & ((r - 1) as i32) == 0 ==> (2 * r) as i32 & ((2 * r - 1) as i32) == 0) by (bit_vector);
}

/// A power of two above one is twice one.
proof fn lemma_rate_halved(r: i32)
    requires
        2 <= r,
        r & ((r - 1) as i32) == 0,
    ensures
        r % 2 == 0,
        (r / 2) as i32 & ((r / 2 - 1) as i32) == 0,
{
    assert(2 <= r && r & ((r - 1) as i32) == 0 ==> r % 2 == 0 && (r / 2) as i32 & ((r / 2 - 1) as i32) == 0) by (bit_vector);
}

/// A power of two shares no bit with the number below it.
proof fn lemma_power_bits(e: nat)
    requires
        e <= 30,
    ensures
        1 <= pow2(e) <= 0x4000_0000,
        (pow2(e) as i32) & ((pow2(e) - 1) as i32) == 0,
        e > 0 ==> pow2(e) >= 2,
    decreases e,
{
    if e > 0 {
        lemma_power_bits((e - 1) as nat);
        lemma_pow2_unfold(e);
        let h = pow2((e - 1) as nat) as i32;
        if e < 30 {
            assert(h <= 0x2000_0000) by {
                lemma_pow2_unfold(30);
                lemma_power_top();
                if e < 29 {
                    lemma_pow2_strictly_increases((e - 1) as nat, 29);
                } else {
                    lemma_pow2_strictly_increases(28, 29);
                }
            }
        } else {
            lemma_power_top();
        }
        lemma_rate_doubled(h);
    } else {
        lemma_pow2_one();
        assert(1i32 & 0i32 == 0) by (bit_vector);
    }
}

/// The zeroth power of two.
proof fn lemma_pow2_one()
    ensures
        pow2(0) == 1,
{
    vstd::arithmetic::power2::lemma2_to64();
}

/// The powers of two that bound the rates.
proof fn lemma_power_top()
    ensures
        pow2(29) == 0x2000_0000,
        pow2(30) == 0x4000_0000,
        pow2(31) == 0x8000_0000,
{
    vstd::arithmetic::power2::lemma2_to64();
}

/// The exponent of a number that shares no bit with the number below it.
proof fn lemma_exponent(r: i32) -> (e: nat)
    requires
        1 <= r,
        r & ((r - 1) as i32) == 0,
    ensures
        e <= 30,
        pow2(e) == r,
        r >= 2 ==> e >= 1,
    decreases r,
{
    if r == 1 {
        lemma_pow2_one();
        0
    } else {
        lemma_rate_halved(r);
        let h = (r / 2) as i32;
        let e = lemma_exponent(h);
        lemma_pow2_unfold(e + 1);
        if e == 30 {
            lemma_power_top();
        }
        e + 1
    }
}

/// The sampling rates are the powers of two from `2` up to `2^30`.
pub proof fn law_rates_are_powers_of_two(r: i32)
    ensures
        valid_rate(r) <==> exists|e: nat| 1 <= e <= 30 && #[trigger] pow2(e) == r,
{
    if valid_rate(r) {
        let e = lemma_exponent(r);
        assert(1 <= e <= 30 && pow2(e) == r);
    }
    if exists|e: nat| 1 <= e <= 30 && #[trigger] pow2(e) == r {
        let e = choose|e: nat| 1 <= e <= 30 && #[trigger] pow2(e) == r;
        lemma_power_bits(e);
    }
}

/// Every power of two from `2` up to `2^30` is a sampling rate.
pub proof fn law_powers_of_two_are_rates(e: nat)
    requires
        1 <= e <= 30,
    ensures
        2 <= pow2(e) <= i32::MAX,
        valid_rate(pow2(e) as i32),
{
    lemma_power_bits(e);
}

/// A text has as many samples as it has positions that the rate divides, and an empty text has
/// one: so many that they reach behind the text, and no more.
pub proof fn law_sample_count(n: int, r: int)
    requires
        0 <= n,
        1 <= r || n == 0,
    ensures
        sample_count(n, r) >= 1,
        n > 0 ==> (sample_count(n, r) - 1) * r < n <= sample_count(n, r) * r,
        n == 0 ==> sample_count(n, r) == 1,
{
    if n > 0 {
        let q = (n - 1) / r;
        vstd::arithmetic::div_mod::lemma_fundamental_div_mod(n - 1, r);
        vstd::arithmetic::div_mod::lemma_mod_bound(n - 1, r);
        vstd::arithmetic::div_mod::lemma_div_pos_is_pos(n - 1, r);
        assert(q * r == r * q) by (nonlinear_arith);
        assert((q + 1) * r == q * r + r) by (nonlinear_arith);
    }
}

/// Slots hold the samples of a text just where they reach behind it.
proof fn lemma_samples_held(n: int, r: int, slots: int)
    requires
        0 <= n,
        1 <= r || n == 0 && r == 0,
        0 <= slots,
    ensures
        slots >= sample_count(n, r) <==> slots >= 1 && slots * r >= n,
{
    law_sample_count(n, r);
    let c = sample_count(n, r);
    if n > 0 {
        if slots >= c {
            assert(slots * r >= c * r) by (nonlinear_arith)
                requires
                    slots >= c,
                    r >= 1,
            ;
        } else {
            assert(slots * r <= (c - 1) * r) by (nonlinear_arith)
                requires
                    slots <= c - 1,
                    r >= 1,
            ;
        }
    } else {
        assert(slots * r >= 0) by (nonlinear_arith)
            requires
                slots >= 0,
                r >= 0,
        ;
    }
}

/// Samples are refused just where the rate is no power of two from `2` up to `2^30`, or where the
/// slots for them do not reach behind the text.
pub proof fn law_sample_refusals(n: int, r: i32, slots: int)
    requires
        0 <= n,
        0 <= slots,
    ensures
        samples_refused(n, r, slots) <==> !((exists|e: nat| 1 <= e <= 30 && #[trigger] pow2(e) == r) && slots >= 1
            && slots * r >= n),
{
    law_rates_are_powers_of_two(r);
    if valid_rate(r) {
        lemma_samples_held(n, r as int, slots);
    }
}

/// Inverting is refused just where the bytes or the slots do not hold the text, where a table of
/// fewer than 256 entries is given, where the rate is neither the length of the text nor a power
/// of two from `2` up to `2^30`, where the samples do not reach behind the text, or where one of
/// them is no row of it.
pub proof fn law_inversion_refusals(n: int, bytes: int, slots: int, freq: Option<&[i32]>, r: i32, i: Seq<i32>)
    requires
        0 <= n,
    ensures
        refused(n, bytes, slots, freq, r, i) <==> !({
            &&& bytes >= n
            &&& slots >= n
            &&& freq matches Some(f) ==> f.len() >= 256
            &&& r == n || exists|e: nat| 1 <= e <= 30 && #[trigger] pow2(e) == r
            &&& i.len() >= 1
            &&& i.len() * r >= n
            &&& n <= 1 ==> i[0] == n
            &&& n >= 2 ==> forall|k: int| 0 <= k && #[trigger] (k * r) < n ==> 1 <= i[k] <= n
        }),
{
    law_rates_are_powers_of_two(r);
    if r == n || valid_rate(r) {
        lemma_samples_held(n, r as int, i.len() as int);
        law_sample_count(n, r as int);
        if n >= 2 {
            let c = sample_count(n, r as int);
            assert forall|k: int| 0 <= k implies (#[trigger] (k * r) < n <==> k < c) by {
                if k < c {
                    assert(k * r <= (c - 1) * r) by (nonlinear_arith)
                        requires
                            k <= c - 1,
                            r >= 1,
                    ;
                } else {
                    assert(k * r >= c * r) by (nonlinear_arith)
                        requires
                            k >= c,
                            r >= 1,
                    ;
                }
            }
            if samples_valid(n, r as int, i) {
                assert forall|k: int| 0 <= k && #[trigger] (k * r) < n implies 1 <= i[k] <= n by {}
            }
            if forall|k: int| 0 <= k && #[trigger] (k * r) < n ==> 1 <= i[k] <= n {
                assert forall|k: int| 0 <= k < c implies 1 <= #[trigger] i[k] <= n by {
                    assert(k * r < n);
                }
            }
        }
    }
}

/// The last text is not closed just where there is a last byte and it is not zero, whatever the
/// other bytes are.
pub proof fn law_unclosed(t: Seq<u8>)
    ensures
        unclosed(t) <==> t.len() > 0 && t.last() != 0,
{
}

/// Texts are well separated just where the last byte is zero and none of them is empty: no zero
/// byte comes first or behind another.
pub proof fn law_well_separated(t: Seq<u8>)
    ensures
        well_separated(t) <==> {
            &&& t.len() > 0 ==> t.last() == 0
            &&& t.len() > 0 ==> t[0] != 0
            &&& forall|i: int| 0 < i < t.len() ==> !(t[i - 1] == 0 && #[trigger] t[i] == 0)
        },
{
    if well_separated(t) {
        assert forall|i: int| 0 < i < t.len() implies !(t[i - 1] == 0 && #[trigger] t[i] == 0) by {}
        if t.len() > 0 && t[0] == 0 {
            assert(false);
        }
    }
    if (t.len() > 0 ==> t.last() == 0 && t[0] != 0) && (forall|i: int| 0 < i < t.len() ==> !(t[i - 1] == 0 && #[trigger] t[i] == 0)) {
        assert forall|i: int| 0 <= i < t.len() && #[trigger] t[i] == 0 implies i > 0 && t[i - 1] != 0 by {}
    }
}

/// Texts that are not empty, each closed by a zero byte, are sorted whatever their other bytes
/// are, where no fewer than no spare slots are asked for, the slots hold the texts and the spare
/// ones, and no table of fewer than 256 entries is given.
pub proof fn law_separated_texts_accepted(t: Seq<u8>, slots: int, fs: int, freq: Option<&mut [SaSint]>)
    requires
        t.len() > 0 ==> t.last() == 0 && t[0] != 0,
        forall|i: int| 0 < i < t.len() ==> !(t[i - 1] == 0 && #[trigger] t[i] == 0),
        fs >= 0,
        slots >= t.len() + fs,
        freq matches Some(f) ==> f.len() >= 256,
    ensures
        !sort_refused(t.len() as int, slots, fs, freq),
        !unclosed(t),
        well_separated(t),
{
    law_well_separated(t);
}

/// One more text that is not empty and holds no zero byte, closed by one, keeps texts well
/// separated; no text at all is well separated too.
pub proof fn law_text_appended(t: Seq<u8>, p: Seq<u8>)
    requires
        well_separated(t),
        p.len() > 0,
        !p.contains(0),
    ensures
        well_separated(t + p.push(0)),
        !unclosed(t + p.push(0)),
        well_separated(Seq::<u8>::empty()),
{
    let u = t + p.push(0);
    assert forall|i: int| 0 <= i < u.len() && #[trigger] u[i] == 0 implies i > 0 && u[i - 1] != 0 by {
        if i < t.len() {
            assert(t[i] == 0);
            assert(u[i - 1] == t[i - 1]);
        } else {
            let k = i - t.len();
            if k < p.len() {
                assert(p[k] == 0);
                assert(p.contains(p[k]));
            } else {
                assert(u[i - 1] == p[p.len() - 1]);
                assert(p.contains(p[p.len() - 1]));
            }
        }
    }
}

/// The positions of a byte are as many as counting says.
proof fn lemma_positions(t: Seq<u8>, c: int, n: int)
    requires
        0 <= n <= t.len(),
    ensures
        Set::new(|i: int| 0 <= i < n && t[i] == c).finite(),
        Set::new(|i: int| 0 <= i < n && t[i] == c).len() == occurrences(t, c, n),
    decreases n,
{
    let s = Set::new(|i: int| 0 <= i < n && t[i] == c);
    if n == 0 {
        assert(s =~= Set::empty());
    } else {
        lemma_positions(t, c, n - 1);
        let r = Set::new(|i: int| 0 <= i < n - 1 && t[i] == c);
        if t[n - 1] == c {
            assert(s =~= r.insert(n - 1));
        } else {
            assert(s =~= r);
        }
    }
}

/// The positions of a byte in a text are as many as counting says.
proof fn lemma_all_positions(t: Seq<u8>, c: int)
    ensures
        Set::new(|i: int| 0 <= i < t.len() && t[i] == c).len() == occurrences(t, c, t.len() as int),
{
    let n = t.len() as int;
    lemma_positions(t, c, n);
    assert(Set::new(|i: int| 0 <= i < t.len() && t[i] == c) =~= Set::new(|i: int| 0 <= i < n && t[i] == c));
}

/// Counting a byte counts it in the collection of all bytes.
proof fn lemma_collected(t: Seq<u8>, c: u8, n: int)
    requires
        0 <= n <= t.len(),
    ensures
        t.take(n).to_multiset().count(c) == occurrences(t, c as int, n),
    decreases n,
{
    let s = t.take(n);
    s.to_multiset_ensures();
    if n == 0 {
        assert(s.len() == 0);
        assert(!s.contains(c));
    } else {
        lemma_collected(t, c, n - 1);
        let r = t.take(n - 1);
        r.to_multiset_ensures();
        assert(s =~= r.push(t[n - 1]));
    }
}

/// A table of frequencies holds, for each byte, how many positions of the text hold it, and is
/// kept behind its first 256 entries.
pub proof fn law_frequencies_are_cardinalities(t: Seq<u8>, before: Seq<i32>, f: Seq<i32>, c: u8)
    requires
        frequencies(t, before, f),
    ensures
        f.len() == before.len(),
        f[c as int] == Set::new(|i: int| 0 <= i < t.len() && t[i] == c).len(),
        f[c as int] == t.to_multiset().count(c),
        forall|k: int| 256 <= k < f.len() ==> #[trigger] f[k] == before[k],
{
    lemma_all_positions(t, c as int);
    assert(Set::new(|i: int| 0 <= i < t.len() && t[i] == c) =~= Set::new(|i: int| 0 <= i < t.len() && t[i] == c as int));
    lemma_collected(t, c, t.len() as int);
    assert(t.take(t.len() as int) =~= t);
    assert(f[c as int] == occurrences(t, c as int, t.len() as int));
}

/// The entries of a table of frequencies add up to the length of the text.
pub proof fn law_frequency_table_adds_up(t: Seq<u8>, before: Seq<i32>, f: Seq<i32>)
    requires
        frequencies(t, before, f),
        f.len() >= 256,
    ensures
        f.take(256).fold_left(0, |sum: int, x: i32| sum + x) == t.len(),
{
    law_frequencies_add_up(t, t.len() as int);
    lemma_table_sum(t, before, f, 256);
}

/// The first `k` entries of a table add up to the frequencies of the bytes below `k`.
proof fn lemma_table_sum(t: Seq<u8>, before: Seq<i32>, f: Seq<i32>, k: int)
    requires
        frequencies(t, before, f),
        0 <= k <= 256 <= f.len(),
    ensures
        f.take(k).fold_left(0, |sum: int, x: i32| sum + x) == frequency_sum(t, k, t.len() as int),
    decreases k,
{
    if k > 0 {
        lemma_table_sum(t, before, f, k - 1);
        assert(f.take(k).drop_last() =~= f.take(k - 1));
        assert(f[k - 1] == occurrences(t, k - 1, t.len() as int));
    }
}

/// A table holds the frequencies of a text just where each entry is the number of times that its
/// byte occurs in the text; a table that a call has filled does, and so does no table at all.
pub proof fn law_filled_table_given(t: Seq<u8>, freq: &[i32])
    requires
        freq.len() >= 256,
    ensures
        frequencies_given(t, Some(freq)) <==> forall|c: u8| freq@[c as int] == #[trigger] t.to_multiset().count(c),
        forall|before: Seq<i32>| #[trigger] frequencies(t, before, freq@) ==> frequencies_given(t, Some(freq)),
        frequencies_given(t, None),
{
    let n = t.len() as int;
    assert(t.take(n) =~= t);
    assert forall|c: u8| #[trigger] t.to_multiset().count(c) == occurrences(t, c as int, n) by {
        lemma_collected(t, c, n);
    }
    if forall|c: u8| freq@[c as int] == #[trigger] t.to_multiset().count(c) {
        assert forall|c: int| 0 <= c < 256 implies #[trigger] freq@[c] == occurrences(t, c, n) by {
            assert(freq@[(c as u8) as int] == t.to_multiset().count(c as u8));
        }
    }
    if frequencies_given(t, Some(freq)) {
        assert forall|c: u8| freq@[c as int] == #[trigger] t.to_multiset().count(c) by {
            assert(freq@[c as int] == occurrences(t, c as int, n));
        }
    }
}

/// Nothing changes in an array behind the text and the spare slots, nor in its length.
pub proof fn law_rest_kept(before: Seq<i32>, after: Seq<i32>, n: int, fs: int)
    requires
        0 <= n,
    ensures
        rest_kept(before, after, n, fs) <==> after.len() == before.len() && forall|i: int|
            #![trigger after[i]]
            n <= i && n + fs <= i < before.len() ==> after[i] == before[i],
{
}

/// Nothing changes in the bytes behind the transform, nor in their number.
pub proof fn law_tail_kept(before: Seq<u8>, after: Seq<u8>, n: int)
    ensures
        tail_kept(before, after, n) <==> after.len() == before.len() && forall|i: int|
            #![trigger after[i]]
            n <= i < before.len() ==> after[i] == before[i],
{
}

/// Where `sa` is the suffix array of a text, the transform of the text starts with its last byte,
/// goes on with the bytes in front of the sorted suffixes up to the whole text, which has none,
/// and ends with those in front of the other suffixes; the primary index is one more than the
/// rank of the whole text. An empty text has the index zero.
pub proof fn law_transform_described(t: Seq<u8>, sa: Seq<i32>, u: Seq<u8>, index: int)
    requires
        is_suffix_array(text8(t), sa),
    ensures
        t.len() == 0 ==> (is_bwt(t, u, index) <==> index == 0),
        t.len() > 0 ==> (is_bwt(t, u, index) <==> {
            &&& t.len() <= u.len()
            &&& 1 <= index <= t.len()
            &&& sa[index - 1] == 0
            &&& u[0] == t.last()
            &&& forall|j: int| 1 <= j < index ==> #[trigger] u[j] == t[sa[j - 1] - 1]
            &&& forall|j: int| index <= j < t.len() ==> #[trigger] u[j] == t[sa[j] - 1]
        }),
{
    if t.len() > 0 {
        if is_bwt(t, u, index) {
            let s = choose|s: Seq<i32>| bwt_from(t, s, u, index);
            law_suffix_array_unique(text8(t), s, sa);
            assert(u[0] == bwt_byte(t, sa, index - 1, 0));
            assert forall|j: int| 1 <= j < index implies #[trigger] u[j] == t[sa[j - 1] - 1] by {
                assert(u[j] == bwt_byte(t, sa, index - 1, j));
            }
            assert forall|j: int| index <= j < t.len() implies #[trigger] u[j] == t[sa[j] - 1] by {
                assert(u[j] == bwt_byte(t, sa, index - 1, j));
            }
        }
        if t.len() <= u.len() && 1 <= index <= t.len() && sa[index - 1] == 0 && u[0] == t.last() && (forall|j: int|
            1 <= j < index ==> #[trigger] u[j] == t[sa[j - 1] - 1]) && (forall|j: int|
            index <= j < t.len() ==> #[trigger] u[j] == t[sa[j] - 1]) {
            assert forall|j: int| 0 <= j < t.len() implies #[trigger] u[j] == bwt_byte(t, sa, index - 1, j) by {}
            assert(bwt_from(t, sa, u, index));
        }
    }
}

/// The sampled transform of a text that is not empty is its transform, with samples that give,
/// for every position that the rate divides, one more than the rank of the suffix there.
pub proof fn law_sampled_transform_described(t: Seq<u8>, sa: Seq<i32>, u: Seq<u8>, r: int, samples: Seq<i32>)
    requires
        is_suffix_array(text8(t), sa),
        t.len() > 0,
        1 <= r,
    ensures
        is_bwt_aux(t, u, r, samples) <==> {
            &&& is_bwt(t, u, samples[0] as int)
            &&& forall|k: int| 0 <= k && #[trigger] (k * r) < t.len() ==> k < samples.len() && 1 <= samples[k] <= t.len()
                && sa[samples[k] - 1] == k * r
        },
{
    let n = t.len() as int;
    law_sample_count(n, r);
    let c = sample_count(n, r);
    if is_bwt_aux(t, u, r, samples) {
        let s = choose|s: Seq<i32>| bwt_from(t, s, u, samples[0] as int) && samples_from(s, n, r, samples);
        law_suffix_array_unique(text8(t), s, sa);
        assert(is_bwt(t, u, samples[0] as int));
    }
    if is_bwt(t, u, samples[0] as int) && (forall|k: int|
        0 <= k && #[trigger] (k * r) < n ==> k < samples.len() && 1 <= samples[k] <= n && sa[samples[k] - 1] == k * r) {
        assert((c - 1) * r < n);
        assert(c - 1 < samples.len());
        let s = choose|s: Seq<i32>| bwt_from(t, s, u, samples[0] as int);
        law_suffix_array_unique(text8(t), s, sa);
        assert(samples_from(sa, n, r, samples));
        assert(bwt_from(t, sa, u, samples[0] as int) && samples_from(sa, n, r, samples));
    }
}

/// The sampled transform of an empty text has the one sample zero.
pub proof fn law_sampled_transform_of_nothing(t: Seq<u8>, u: Seq<u8>, r: int, samples: Seq<i32>)
    requires
        t.len() == 0,
    ensures
        is_bwt_aux(t, u, r, samples) <==> samples.len() >= 1 && samples[0] == 0,
{
}

/// The lengths in text order are zero for the first suffix of the suffix array, and for each
/// other suffix the number of bytes that it shares with the suffix before it: these agree, and
/// behind them one of the suffixes ends or their bytes differ.
pub proof fn law_byte_lengths(t: Seq<u8>, sa: Seq<i32>, plcp: Seq<i32>, k: int)
    requires
        is_suffix_array(text8(t), sa),
        is_plcp(text8(t), sa, plcp),
        0 <= k < t.len(),
    ensures
        plcp.len() == t.len(),
        k == 0 ==> plcp[sa[0] as int] == 0,
        k > 0 ==> ({
            let (i, j, l) = (sa[k - 1] as int, sa[k] as int, plcp[sa[k] as int] as int);
            &&& 0 <= l
            &&& i + l <= t.len()
            &&& j + l <= t.len()
            &&& t.subrange(i, i + l) == t.subrange(j, j + l)
            &&& i + l == t.len() || j + l == t.len() || t[i + l] != t[j + l]
        }),
{
    let x = text8(t);
    assert(x.len() == t.len());
    assert(0 <= sa[k] < x.len());
    assert(plcp[sa[k] as int] == shared_with_previous(x, sa, k));
    if k > 0 {
        let (i, j) = (sa[k - 1] as int, sa[k] as int);
        assert(0 <= sa[k - 1] < x.len());
        law_common_prefix_longest(x, i, j);
        let l = common_prefix(x, i, j) as int;
        assert forall|y: int| 0 <= y < l implies #[trigger] t[i + y] == t[j + y] by {
            assert(x[i + y] == x[j + y]);
        }
        let a = t.subrange(i, i + l);
        let b = t.subrange(j, j + l);
        assert forall|y: int| 0 <= y < l implies a[y] == b[y] by {
            assert(t[i + y] == t[j + y]);
        }
        assert(a =~= b);
    }
}

/// The lengths in text order are zero for the first suffix of the suffix array, and for each
/// other suffix the number of symbols that it shares with the suffix before it: these agree, and
/// behind them one of the suffixes ends or their symbols differ.
pub proof fn law_integer_lengths(t: Seq<i32>, sa: Seq<i32>, plcp: Seq<i32>, k: int)
    requires
        is_suffix_array(text32(t), sa),
        is_plcp(text32(t), sa, plcp),
        0 <= k < t.len(),
    ensures
        plcp.len() == t.len(),
        k == 0 ==> plcp[sa[0] as int] == 0,
        k > 0 ==> ({
            let (i, j, l) = (sa[k - 1] as int, sa[k] as int, plcp[sa[k] as int] as int);
            &&& 0 <= l
            &&& i + l <= t.len()
            &&& j + l <= t.len()
            &&& t.subrange(i, i + l) == t.subrange(j, j + l)
            &&& i + l == t.len() || j + l == t.len() || t[i + l] != t[j + l]
        }),
{
    let x = text32(t);
    assert(x.len() == t.len());
    assert(0 <= sa[k] < x.len());
    assert(plcp[sa[k] as int] == shared_with_previous(x, sa, k));
    if k > 0 {
        let (i, j) = (sa[k - 1] as int, sa[k] as int);
        assert(0 <= sa[k - 1] < x.len());
        law_common_prefix_longest(x, i, j);
        let l = common_prefix(x, i, j) as int;
        assert forall|y: int| 0 <= y < l implies #[trigger] t[i + y] == t[j + y] by {
            assert(x[i + y] == x[j + y]);
        }
        let a = t.subrange(i, i + l);
        let b = t.subrange(j, j + l);
        assert forall|y: int| 0 <= y < l implies a[y] == b[y] by {
            assert(t[i + y] == t[j + y]);
        }
        assert(a =~= b);
    }
}

/// The lengths in text order are, for separated texts, zero for the first suffix of the suffix
/// array, and for each other suffix the number of bytes that it shares with the suffix before it
/// within their texts: these agree and hold no separator, and behind them the bytes differ or
/// both texts end.
pub proof fn law_separated_lengths(t: Seq<u8>, sa: Seq<i32>, plcp: Seq<i32>, k: int)
    requires
        t.len() > 0,
        t.last() == 0,
        is_suffix_array(separated_text(t), sa),
        is_plcp(separated_text(t), sa, plcp),
        0 <= k < t.len(),
    ensures
        plcp.len() == t.len(),
        k == 0 ==> plcp[sa[0] as int] == 0,
        k > 0 ==> ({
            let (i, j, l) = (sa[k - 1] as int, sa[k] as int, plcp[sa[k] as int] as int);
            &&& 0 <= l
            &&& i + l < t.len()
            &&& j + l < t.len()
            &&& t.subrange(i, i + l) == t.subrange(j, j + l)
            &&& !t.subrange(i, i + l).contains(0)
            &&& t[i + l] != t[j + l] || t[i + l] == 0 && t[j + l] == 0
        }),
{
    let x = separated_text(t);
    assert(x.len() == t.len());
    assert(0 <= sa[k] < x.len());
    assert(plcp[sa[k] as int] == shared_with_previous(x, sa, k));
    if k > 0 {
        let (i, j) = (sa[k - 1] as int, sa[k] as int);
        assert(0 <= sa[k - 1] < x.len());
        if i == j {
            lemma_suffix_array_distinct(x, sa, k - 1, k);
        }
        law_common_prefix_longest(x, i, j);
        let l = common_prefix(x, i, j) as int;
        assert forall|y: int| 0 <= y < l implies #[trigger] t[i + y] == t[j + y] && t[i + y] != 0 by {
            assert(x[i + y] == x[j + y]);
        }
        if l > 0 {
            let z = l - 1;
            assert(x[i + z] == x[j + z]);
            assert(t[i + z] != 0 && t[j + z] != 0);
        }
        let a = t.subrange(i, i + l);
        let b = t.subrange(j, j + l);
        assert forall|y: int| 0 <= y < l implies a[y] == b[y] && a[y] != 0 by {
            assert(t[i + y] == t[j + y]);
        }
        assert(a =~= b);
    }
}

/// Bringing lengths to the order of the suffix array puts at each rank the length of the suffix
/// there; it is possible just where all ranks hold positions.
pub proof fn law_lengths_reordered(plcp: Seq<i32>, sa: Seq<i32>, lcp: Seq<i32>)
    requires
        lcp.len() == sa.len(),
    ensures
        reordered(plcp, sa, lcp, 0, sa.len() as int).len() == sa.len(),
        forall|k: int| 0 <= k < sa.len() ==> #[trigger] reordered(plcp, sa, lcp, 0, sa.len() as int)[k] == plcp[sa[k] as int],
        selects(plcp, sa, 0, sa.len() as int) <==> forall|k: int| 0 <= k < sa.len() ==> 0 <= #[trigger] sa[k] < plcp.len(),
{
}

/// A context is fit for sorting just where it has eight buckets for each byte, and it is one for
/// a single worker where it also has no working storage and names one worker.
pub proof fn law_context_fit(ctx: &Context)
    ensures
        ctx.has_buckets() <==> ctx.buckets.len() == 2048,
        ctx.is_plain() <==> ctx.buckets.len() == 2048 && ctx.threads == 1 && ctx.thread_state is None,
{
}

/// A context that has served keeps its sizes and its number of workers, and the working storage
/// too where one worker is meant or the text is short.
pub proof fn law_context_kept(before: &Context, after: &Context, n: int)
    requires
        before.same_shape(after, n),
    ensures
        after.buckets.len() == before.buckets.len(),
        after.threads == before.threads,
        before.thread_state is None <==> after.thread_state is None,
        before.thread_state matches Some(s) ==> after.thread_state->0.len() == s.len() && forall|w: int|
            0 <= w < s.len() ==> (#[trigger] after.thread_state->0@[w]).buckets.len() == s@[w].buckets.len()
                && after.thread_state->0@[w].cache.len() == s@[w].cache.len(),
        before.threads == 1 || n < 65536 ==> after.thread_state == before.thread_state,
{
    if before.thread_state is Some {
        let s = before.thread_state->0;
        let z = after.thread_state->0;
        assert(before.storage() == s@ && after.storage() == z@);
        assert forall|w: int| 0 <= w < s.len() implies (#[trigger] z@[w]).buckets.len() == s@[w].buckets.len()
            && z@[w].cache.len() == s@[w].cache.len() by {
            assert(after.storage()[w] == z@[w]);
        }
    }
}

/// New working storage holds zeros in the sizes that the passes rely on.
pub proof fn law_new_storage(s: ThreadState)
    requires
        empty_state(s),
    ensures
        s.position == 0,
        s.count == 0,
        s.m == 0,
        s.last_lms_suffix == 0,
        s.buckets@ == Seq::new(1024, |i: int| 0i32),
        s.cache.len() == 24576,
        forall|i: int| 0 <= i < 24576 ==> (#[trigger] s.cache@[i]).symbol == 0 && s.cache@[i].index == 0,
{
    assert(s.buckets@ =~= Seq::new(1024, |i: int| 0i32));
}

/// Storage of workers has the sizes that the passes rely on just where each worker has four
/// buckets for each byte and a cache of 24576 entries.
pub proof fn law_storage_fit(s: Seq<ThreadState>)
    ensures
        workers_wf(s) <==> forall|i: int| 0 <= i < s.len() ==> (#[trigger] s[i]).buckets.len() == 1024 && s[i].cache.len() == 24576,
{
    if workers_wf(s) {
        assert forall|i: int| 0 <= i < s.len() implies (#[trigger] s[i]).buckets.len() == 1024 && s[i].cache.len() == 24576 by {
            assert(s[i].wf());
        }
    }
    if forall|i: int| 0 <= i < s.len() ==> (#[trigger] s[i]).buckets.len() == 1024 && s[i].cache.len() == 24576 {
        assert forall|i: int| 0 <= i < s.len() implies (#[trigger] s[i]).wf() by {}
    }
}

/// As many workers are meant as are asked for; where none are asked for, all that are available,
/// and at least one.
pub proof fn law_workers_meant(threads: i32, available: i32)
    ensures
        threads > 0 ==> normalized(threads, available) == threads,
        threads <= 0 && available >= 1 ==> normalized(threads, available) == available,
        threads <= 0 && available < 1 ==> normalized(threads, available) == 1,
{
}

/// One worker takes part unless several are asked for and the work is large; then as many as are
/// asked for, or as there is storage for where that is less, and at least one.
pub proof fn law_workers_take_part(threads: int, large: bool, available: int)
    ensures
        workers(threads, large, available) >= 1,
        threads <= 1 || !large || available <= 1 ==> workers(threads, large, available) == 1,
        threads > 1 && large && 1 <= available <= threads ==> workers(threads, large, available) == available,
        threads > 1 && large && threads <= available ==> workers(threads, large, available) == threads,
{
}

/// The blocks of the workers follow each other from the first position to the last. All but the
/// last have the same size: the largest multiple of 16 that leaves room for as many blocks.
pub proof fn law_block_sizes(n: int, k: int, w: int)
    requires
        0 <= n,
        0 <= w < k,
    ensures
        block_lo(n, k, 0) == 0,
        block_hi(n, k, k - 1) == n,
        w + 1 < k ==> block_lo(n, k, w + 1) == block_hi(n, k, w),
        w + 1 < k ==> ({
            let size = block_hi(n, k, w) - block_lo(n, k, w);
            &&& size % 16 == 0
            &&& size <= n / k < size + 16
        }),
{
    law_blocks_join(n, k, w);
    let stride = block_stride(n, k);
    assert((w + 1) * stride - w * stride == stride) by (nonlinear_arith);
}

/// Storage for inverting is fit for it just where it has a table of pairs, an index of more than
/// `2^17` entries, a number of workers, and tables for all of them where it has any.
pub proof fn law_inverting_storage_fit(ctx: &UnbwtContext)
    ensures
        ctx.wf() <==> {
            &&& ctx.bucket2.len() == 65536
            &&& ctx.fastbits.len() >= 131073
            &&& 0 <= ctx.threads <= i32::MAX
            &&& ctx.buckets matches Some(s) ==> s.len() >= ctx.threads * 65792
        },
{
}

/// Storage that has served for inverting keeps its sizes and its number of workers.
pub proof fn law_inverting_storage_kept(before: &UnbwtContext, after: &UnbwtContext)
    requires
        before.same_tables(after),
    ensures
        after.bucket2.len() == before.bucket2.len(),
        after.fastbits.len() == before.fastbits.len(),
        after.threads == before.threads,
        before.buckets is None <==> after.buckets is None,
        before.buckets matches Some(s) ==> after.buckets->0.len() == s.len(),
        before.wf() <==> after.wf(),
{
}

/// Separated texts are asked for by the second bit of the flags, and the text that is sorted
/// depends on nothing else.
pub proof fn law_flags(t: Seq<u8>, flags: i32)
    ensures
        separated(flags) <==> flags & 2 != 0,
        sorted_text(t, true) == separated_text(t),
        sorted_text(t, false) == text8(t),
{
}

/// A text that is refused because it is none of separated texts has its leftmost suffixes of
/// type S, those that are lower than both neighbours in the text, in ascending order at the end
/// of the slots that it takes; behind them nothing changes.
pub proof fn law_refused_text_gathered(t: Seq<u8>, sa: Seq<i32>) -> (from: int)
    requires
        2 <= t.len() <= sa.len(),
        t.len() <= i32::MAX,
    ensures
        refused_slots(t, sa).len() == sa.len(),
        forall|p: int| t.len() <= p < sa.len() ==> #[trigger] refused_slots(t, sa)[p] == sa[p],
        0 <= from <= t.len(),
        ({
            let s = refused_slots(t, sa);
            let x = text8(t);
            &&& forall|k: int| from <= k < t.len() ==> 0 < #[trigger] s[k] < t.len() && suffix_less(x, s[k] as int, s[k] - 1)
                && suffix_less(x, s[k] as int, s[k] + 1)
            &&& forall|k: int, l: int| from <= k < l < t.len() ==> #[trigger] s[k] < #[trigger] s[l]
            &&& forall|p: int| 0 < p < t.len() && #[trigger] suffix_less(x, p, p - 1) && suffix_less(x, p, p + 1)
                ==> exists|k: int| from <= k < t.len() && #[trigger] s[k] == p
        }),
{
    let n = t.len() as int;
    let x = text8(t);
    let front = sa.subrange(0, n);
    assert(x.len() == n);
    law_suffix_array_exists(x);
    let order = choose|order: Seq<i32>| is_suffix_array(x, order);
    lemma_byte_gathered(t, order, front, 2048);
    law_counted_and_gathered_8u(x, front, 2048, 0, n);
    let y = count_and_gather_lms_suffixes_8u_run(x, front, n, 2048, 0, n)->0;
    let s = refused_slots(t, sa);
    let from = y.2 + 1;
    assert(gathered_8u(t, front, n, 2048).unwrap().0 == y.0);
    assert(y.0.len() == n);
    assert forall|k: int| 0 <= k < n implies #[trigger] s[k] == y.0[k] by {}
    assert forall|k: int| from <= k < n implies 0 < #[trigger] s[k] < n && suffix_less(x, s[k] as int, s[k] - 1)
        && suffix_less(x, s[k] as int, s[k] + 1) by {
        assert(is_lms(x, y.0[k] as int));
        lemma_less_total(x, s[k] as int, s[k] + 1);
    }
    assert forall|p: int| 0 < p < n && #[trigger] suffix_less(x, p, p - 1) && suffix_less(x, p, p + 1) implies exists|k: int|
        from <= k < n && #[trigger] s[k] == p by {
        lemma_less_total(x, p, p + 1);
        assert(is_lms(x, p));
        let k = choose|k: int| from <= k < n && #[trigger] y.0[k] == p;
        assert(s[k] == p);
    }
    assert forall|k: int, l: int| from <= k < l < n implies #[trigger] s[k] < #[trigger] s[l] by {
        assert(y.0[k] < y.0[l]);
    }
    from
}

/// The two marks of an entry are its sign bit and the bit below it; each is tested, set, cleared
/// and inverted without the other bits.
pub proof fn law_marks_are_bits(p: i32)
    ensures
        unmarked(p) == p & 0x7fff_ffffi32,
        marked(p, true) == p | (-0x8000_0000i32),
        marked(p, false) == p,
        flipped(p) == p ^ (-0x8000_0000i32),
        grouped(p) <==> p & 0x4000_0000i32 != 0,
        ungrouped(p) == p & (-0x4000_0001i32),
        with_group(p, true) == p | 0x4000_0000i32,
        with_group(p, false) == p,
{
    assert((p & 0x7fff_ffffi32) == (if p < 0 { p + 0x8000_0000 } else { p as int })) by (bit_vector);
    assert((p | (-0x8000_0000i32)) == (if p >= 0 { p - 0x8000_0000 } else { p as int })) by (bit_vector);
    assert((p ^ (-0x8000_0000i32)) == (if p < 0 { p + 0x8000_0000 } else { p - 0x8000_0000 })) by (bit_vector);
    assert(((p & 0x4000_0000i32) != 0) == (p >= 0x4000_0000 || (-0x4000_0000 <= p && p < 0))) by (bit_vector);
    assert((p & (-0x4000_0001i32)) == (if p & 0x4000_0000i32 != 0 { p - 0x4000_0000 } else { p as int })) by (bit_vector);
    assert((p | 0x4000_0000i32) == (if p & 0x4000_0000i32 == 0 { p + 0x4000_0000 } else { p as int })) by (bit_vector);
}

/// A number fits an entry where it has 31 bits and a sign.
pub proof fn law_fits(x: int)
    ensures
        fits(x) <==> -0x8000_0000 <= x < 0x8000_0000,
{
}

/// Clamped entries hold what is marked, without its mark, and zero elsewhere.
pub proof fn law_clamped(s: Seq<i32>, lo: int, hi: int, i: int)
    requires
        0 <= i < s.len(),
    ensures
        clamped(s, lo, hi).len() == s.len(),
        i < lo || hi <= i ==> clamped(s, lo, hi)[i] == s[i],
        lo <= i < hi && s[i] >= 0 ==> clamped(s, lo, hi)[i] == 0,
        lo <= i < hi && s[i] < 0 ==> clamped(s, lo, hi)[i] - s[i] == 0x8000_0000,
{
}

/// A truncated quotient leaves a remainder that is smaller than the divisor and has the sign of
/// the dividend.
pub proof fn law_truncated_quotient(a: int, b: int)
    requires
        b != 0,
    ensures
        ({
            let rest = a - truncated_quotient(a, b) * b;
            &&& a >= 0 && b > 0 ==> 0 <= rest < b
            &&& a >= 0 && b < 0 ==> 0 <= rest < -b
            &&& a < 0 && b > 0 ==> -b < rest <= 0
            &&& a < 0 && b < 0 ==> b < rest <= 0
        }),
{
    let x = if a >= 0 { a } else { -a };
    let y = if b > 0 { b } else { -b };
    vstd::arithmetic::div_mod::lemma_fundamental_div_mod(x, y);
    vstd::arithmetic::div_mod::lemma_mod_bound(x, y);
    let q = x / y;
    assert(q * b == (if b > 0 { y * q } else { -(y * q) })) by (nonlinear_arith)
        requires
            y == b || y == -b,
            b > 0 ==> y == b,
            b <= 0 ==> y == -b,
    ;
    assert((-q) * b == -(q * b)) by (nonlinear_arith);
}

/// Rounding up gives the least multiple of the unit that is not below.
pub proof fn law_rounded_up(x: int, unit: int)
    requires
        unit > 0,
    ensures
        x <= rounded_up(x, unit) < x + unit,
        rounded_up(x, unit) % unit == 0,
{
    let y = x + unit - 1;
    vstd::arithmetic::div_mod::lemma_fundamental_div_mod(y, unit);
    vstd::arithmetic::div_mod::lemma_mod_bound(y, unit);
    vstd::arithmetic::div_mod::lemma_mod_multiples_basic(y / unit, unit);
    assert(y / unit * unit == unit * (y / unit)) by (nonlinear_arith);
}

/// A block ends where it is told to, or with the text where that comes first.
pub proof fn law_block_end(start: isize, size: isize, n: int)
    ensures
        block_end(start, size, n) <= n,
        block_end(start, size, n) <= start + size,
        block_end(start, size, n) == n || block_end(start, size, n) == start + size,
{
}

/// Decoding writes its stretch of the text alone, and what it writes there does not depend on
/// what the text held.
proof fn lemma_decoded_alike(b: Tables, shift: int, at: int, u: Seq<u8>, v: Seq<u8>, row: u32, k: int)
    requires
        u.len() == v.len(),
        decode_run(b, shift, at, (u, row), k) is Some,
    ensures
        decode_run(b, shift, at, (v, row), k) is Some,
        decode_run(b, shift, at, (u, row), k).unwrap().0.len() == u.len(),
        decode_run(b, shift, at, (v, row), k).unwrap().0.len() == u.len(),
        decode_run(b, shift, at, (u, row), k).unwrap().1 == decode_run(b, shift, at, (v, row), k).unwrap().1,
        forall|p: int| at <= p < at + 2 * k ==> #[trigger] decode_run(b, shift, at, (u, row), k).unwrap().0[p]
            == decode_run(b, shift, at, (v, row), k).unwrap().0[p],
        forall|p: int| 0 <= p < u.len() && !(at <= p < at + 2 * k)
            ==> #[trigger] decode_run(b, shift, at, (u, row), k).unwrap().0[p] == u[p],
        k > 0 ==> 0 <= at && at + 2 * k <= u.len(),
    decreases k,
{
    if k > 0 {
        lemma_decoded_alike(b, shift, at, u, v, row, k - 1);
        let step = decode_step(b, shift, at);
        let x = decode_run(b, shift, at, (u, row), k - 1)->0;
        let y = decode_run(b, shift, at, (v, row), k - 1)->0;
        assert(fold_up(step, (u, row), 0, k) == step(x, k - 1));
        assert(fold_up(step, (v, row), 0, k) == step(y, k - 1));
        if k == 1 {
            assert(at + 2 * (k - 1) == at);
        }
    }
}

/// Decoding from several rows on, into stretches that do not overlap, writes into each stretch
/// what decoding from its row alone writes there, goes on from the same rows, and keeps what is
/// outside the stretches.
pub proof fn law_decoded_apart(b: Tables, shift: int, r: int, u: Seq<u8>, rows: Seq<u32>, k: int)
    requires
        0 <= k,
        2 * k <= r,
        decode_many(b, shift, r, u, rows, k) is Some,
    ensures
        ({
            let x = decode_many(b, shift, r, u, rows, k).unwrap();
            &&& x.0.len() == u.len()
            &&& x.1.len() == rows.len()
            &&& forall|j: int| 0 <= j < rows.len() ==> #[trigger] decode_run(b, shift, j * r, (u, rows[j]), k) is Some
                && decode_run(b, shift, j * r, (u, rows[j]), k).unwrap().1 == x.1[j]
            &&& forall|j: int, p: int| 0 <= j < rows.len() && j * r <= p < j * r + 2 * k ==>
                #[trigger] decode_run(b, shift, j * r, (u, rows[j]), k).unwrap().0[p] == x.0[p]
            &&& forall|p: int| 0 <= p < u.len() && (forall|j: int| 0 <= j < rows.len() ==> !(#[trigger] (j * r) <= p < j * r + 2 * k))
                ==> #[trigger] x.0[p] == u[p]
        }),
    decreases rows.len(),
{
    if rows.len() > 0 {
        let front = rows.drop_last();
        let last = rows.len() - 1;
        law_decoded_apart(b, shift, r, u, front, k);
        let y = decode_many(b, shift, r, u, front, k).unwrap();
        let x = decode_many(b, shift, r, u, rows, k).unwrap();
        lemma_decoded_alike(b, shift, last * r, y.0, u, rows[last], k);
        assert forall|j: int| 0 <= j < rows.len() implies #[trigger] decode_run(b, shift, j * r, (u, rows[j]), k) is Some
            && decode_run(b, shift, j * r, (u, rows[j]), k).unwrap().1 == x.1[j] by {
            if j < last {
                assert(front[j] == rows[j]);
            }
        }
        assert forall|j: int, p: int| 0 <= j < rows.len() && j * r <= p < j * r + 2 * k implies
            #[trigger] decode_run(b, shift, j * r, (u, rows[j]), k).unwrap().0[p] == x.0[p] by {
            if j < last {
                assert(front[j] == rows[j]);
                assert(j * r + r <= last * r && 0 <= j * r) by (nonlinear_arith)
                    requires
                        0 <= j < last,
                        0 <= r,
                ;
                lemma_decoded_alike(b, shift, j * r, u, u, rows[j], k);
                assert(decode_run(b, shift, j * r, (u, front[j]), k).unwrap().0[p] == y.0[p]);
                assert(x.0[p] == y.0[p]);
            }
        }
        assert forall|p: int| 0 <= p < u.len() && (forall|j: int| 0 <= j < rows.len() ==> !(#[trigger] (j * r) <= p < j * r + 2 * k))
            implies #[trigger] x.0[p] == u[p] by {
            assert(!(last * r <= p < last * r + 2 * k));
            assert(x.0[p] == y.0[p]);
        }
    }
}

/// Decoding the first blocks keeps what is behind the text.
proof fn lemma_blocks_confined(b: Tables, shift: int, r: int, i: Seq<u32>, n: int, u: Seq<u8>, hi: int)
    requires
        0 < n <= u.len(),
        0 < r,
        0 <= hi <= sample_count(n, r),
        blocks_run(b, shift, r, i, sample_count(n, r), last_block(n, r), u, hi) is Some,
    ensures
        blocks_run(b, shift, r, i, sample_count(n, r), last_block(n, r), u, hi).unwrap().len() == u.len(),
        forall|p: int| n <= p < u.len()
            ==> #[trigger] blocks_run(b, shift, r, i, sample_count(n, r), last_block(n, r), u, hi).unwrap()[p] == u[p],
    decreases hi,
{
    if hi > 0 {
        let blocks = sample_count(n, r);
        let tail = last_block(n, r);
        lemma_blocks_confined(b, shift, r, i, n, u, hi - 1);
        lemma_last_block(n, r);
        let x = blocks_run(b, shift, r, i, blocks, tail, u, hi - 1).unwrap();
        let j = hi - 1;
        assert(fold_up(blocks_step(b, shift, r, i, blocks, tail), u, 0, hi) == blocks_step(b, shift, r, i, blocks, tail)(x, j));
        let k = (if j < blocks - 1 { r } else { tail }) / 2;
        lemma_decoded_alike(b, shift, j * r, x, x, i[j], k);
        if j < blocks - 1 {
            assert(j * r + r <= r * (blocks - 1)) by (nonlinear_arith)
                requires
                    j < blocks - 1,
                    0 < r,
            ;
        } else {
            assert(j * r == r * (blocks - 1)) by (nonlinear_arith)
                requires
                    j == blocks - 1,
            ;
        }
    }
}

/// Whatever is inverted, the bytes behind the text and the slots behind as many as it has bytes
/// are kept, and the last byte of the text is the first of the transformed one.
pub proof fn law_inversion_confined(t: Seq<u8>, r: int, i: Seq<i32>, f: Seq<u16>, u0: Seq<u8>, a0: Seq<i32>, u: Seq<u8>, a: Seq<i32>)
    requires
        inverted(t, r, i, f, u0, a0, u, a),
        t.len() <= u0.len(),
        0 < r || t.len() == 0,
    ensures
        u.len() == u0.len(),
        a.len() == a0.len(),
        forall|p: int| t.len() <= p < u.len() ==> #[trigger] u[p] == u0[p],
        forall|p: int| t.len() <= p < a.len() ==> #[trigger] a[p] == a0[p],
        t.len() > 0 ==> u[t.len() - 1] == t[0],
        t.len() <= 1 ==> a == a0,
{
    let n = t.len() as int;
    if n >= 2 {
        let rows = as_rows(i, sample_count(n, r));
        let b = core_tables(t, n, rows, zero_rows((n + 1) as nat), BIGRAMS as nat, f);
        assert(decoded(t, b, n, r, rows, u0) == Some(u));
        lemma_last_block(n, r);
        lemma_blocks_confined(b, fast_shift(n), r, rows, n, u0, sample_count(n, r));
    }
}

/// The sizes and markers that the library works with: there are as many bytes as values of eight
/// bits, as many pairs as values of sixteen, and the markers are the two highest bits of an entry.
pub proof fn law_sizes()
    ensures
        ALPHABET_SIZE == pow2(8),
        BIGRAMS == pow2(16),
        SEGMENT == pow2(8) + pow2(16),
        SAINT_MAX == pow2(31) - 1,
        SAINT_MIN == -(pow2(31) as int),
        SUFFIX_GROUP_MARKER == pow2(30),
        LIBSAIS_PER_THREAD_CACHE_SIZE == 3 * pow2(13),
        LIBSAIS_FLAGS_NONE == 0,
        LIBSAIS_FLAGS_BWT == pow2(0),
        LIBSAIS_FLAGS_GSA == pow2(1),
{
    lemma2_to64();
}

/// How many slots workers take at once: as many as their caches hold, a margin of sixteen for each
/// worker apart where they read a block by turns.
pub proof fn law_spans(w: int)
    ensures
        0 <= w <= 1536 ==> worker_span(w) == w * (24576 - 16 * w),
        0 <= w <= 1536 ==> half_span(w) == w * (12288 - 8 * w),
        w < 0 || w > 1536 ==> worker_span(w) < 0 && half_span(w) < 0,
        w >= 1 ==> part_span(w) == w * 24576,
        part_span(0) == 24576,
        w < 0 ==> part_span(w) < 0,
        full_span(w) == w * 24576,
{
    assert((24576 - 16 * w) / 2 == 12288 - 8 * w);
}

} // verus!
