//! Induced sorting of separated texts: from the gathered leftmost suffixes of type S to the order
//! of all suffixes.

use vstd::prelude::*;
use crate::buckets::{
    initialize_buckets_for_lms_suffixes_radix_sort_8u_run, initialize_buckets_for_partial_sorting_8u_run,
};
use crate::byte_lanes::{all_left, all_right, lemma_partial_buckets};
use crate::byte_sort::{byte_gathered, lemma_byte_gathered};
use crate::bytes::{separated_text, well_separated};
use crate::fold::{fold_down, lemma_fold_down_split, lemma_fold_shifted};
use crate::gather::{
    cleared, count_and_gather_lms_suffixes_8u_mode, gather_lms_suffixes_32s_run, gather_lms_suffixes_8u_run, text32, text8,
};
use crate::induction::lms_in_place;
use crate::kinds::{is_lms, law_last_type};
use crate::lane_left::mark_count;
use crate::lane_names::{lane_name, lemma_lane_renumbered, lemma_low_marks, marks_names};
use crate::lane_restoring::lemma_lane_rebuilt;
use crate::lane_right::low_start;
use crate::lanes::{in_left, in_right, start, width};
use crate::laws::law_suffix_array_exists;
use crate::lengths::{gathers, law_lms_few, lemma_gathered_all, lists_all};
use crate::listing::{lemma_below_bound, lemma_below_grows};
use crate::main_32s::{computes, reduced_sorted};
use crate::main_8u::{gathered_8u, induced_8u, lms_ordered_8u, named_8u, readied_8u, restored_8u};
use crate::order::is_suffix_array;
use crate::ordering::lemma_sorted_grouped;
use crate::orders::{final_order_8u, partial_order_8u, radix_sorted_8u};
use crate::partial_induction::lms_count;
use crate::place::{
    mode_8u, place_bucket_run, place_bucket_step, place_lms_suffixes_interval_8u_run, placed, PlaceMode,
};
use crate::placement::{among, lemma_among, lemma_found, lms_sorted};
use crate::recount::{below_of, every_lms};
use crate::renumber::renumber_and_gather_run;
use crate::segments::lemma_laid_field;
use crate::separated_order::{
    byte_bounds, law_final_order_separated, lemma_ranked_bounds, ranked_ends, separated_prepared,
};
use crate::separated_radix::lemma_separated_radix;
use crate::separated_scans::{lemma_separated_scans, separated_ready};
use crate::separators::{
    first_closed, lemma_first_closed, lemma_left_closed, lemma_lms_closed, lemma_ranked, lemma_ranked_array,
    lemma_ranked_below, lemma_ranked_count, lemma_ranked_lms, lemma_ranked_types, ranked, ranked_symbol, ranked_symbols,
    separators,
};
use crate::span::moved;
use crate::spreading::{holds_end, law_spread, lemma_spread_in_place, lemma_spread_run, spreadable, tabled};
use crate::types::{separated, PlaceState};

verus! {

/// What naming leaves of the substrings that `w` lists, marked in `marks` where the next differs.
pub open spec fn separated_named(t: Seq<u8>, m: int, fs: int, w: Seq<i32>, marks: Seq<i32>, s: Seq<i32>, names: int) -> bool {
    let n = t.len() as int;
    let y = text32(ranked(t));
    &&& marks_names(ranked(t), w, m, marks)
    &&& names == mark_count(marks, m)
    &&& names < m ==> forall|p: int| #[trigger] is_lms(y, p) ==> s[n + fs - lms_count(y, p)] == lane_name(w, m, marks, p)
    &&& names >= m ==> lms_sorted(ranked(t), s, m)
}

/// The scans visit the same suffixes.
proof fn lemma_same_visits(t: Seq<u8>, f: int)
    requires
        2 <= t.len() <= i32::MAX,
        well_separated(t),
        0 < f,
    ensures
        forall|p: int| 0 <= p < t.len() ==> #[trigger] all_left(text8(t), f)(p) == all_left(text32(ranked(t)), f)(p),
        forall|p: int| 0 <= p < t.len() ==> #[trigger] all_right(text8(t), f)(p) == all_right(text32(ranked(t)), f)(p),
        forall|p: int| 0 <= p < t.len() ==> #[trigger] every_lms(text8(t))(p) == every_lms(text32(ranked(t)))(p),
{
    let x = text8(t);
    let y = text32(ranked(t));
    lemma_ranked(t);
    lemma_ranked_lms(t);
    assert forall|p: int| 0 <= p < t.len() implies #[trigger] all_left(x, f)(p) == all_left(y, f)(p) by {
        if f < p {
            lemma_ranked_types(t, p - 1);
        }
        assert(all_left(x, f)(p) == in_left(x, f, p));
        assert(all_left(y, f)(p) == in_left(y, f, p));
    }
    assert forall|p: int| 0 <= p < t.len() implies #[trigger] all_right(x, f)(p) == all_right(y, f)(p) by {
        if f < p {
            lemma_ranked_types(t, p - 1);
        }
        assert(all_right(x, f)(p) == in_right(x, f, p));
        assert(all_right(y, f)(p) == in_right(y, f, p));
    }
    assert forall|p: int| 0 <= p < t.len() implies #[trigger] every_lms(x)(p) == every_lms(y)(p) by {
        assert(is_lms(y, p) == is_lms(x, p));
    }
}

/// Naming the substrings of separated texts.
#[verifier::spinoff_prover]
#[verifier::rlimit(40)]
proof fn lemma_separated_named(t: Seq<u8>, m: int, fs: int, s: PlaceState) -> (r: (Seq<i32>, Seq<i32>))
    requires
        byte_gathered(t, m, s),
        well_separated(t),
        1 <= m,
        0 <= fs,
        t.len() + fs <= s.0.len(),
    ensures
        ({
            let v = named_8u(t, t.len() as int, m, true, fs, s);
            &&& v is Some
            &&& v.unwrap().0.len() == s.0.len()
            &&& v.unwrap().1.len() == s.1.len()
            &&& separated_named(t, m, fs, r.0, r.1, v.unwrap().0, v.unwrap().2)
            &&& v.unwrap().1[1] == 0
            &&& forall|c: int| 1 <= c < 256 ==> v.unwrap().1[#[trigger] (2 * c + 1)] == below_of(
                text32(ranked(t)), every_lms(text32(ranked(t))))(ranked_symbol(t, c))
            &&& forall|j: int| 1536 <= j < s.1.len() ==> #[trigger] v.unwrap().1[j] == s.1[j]
        }),
{
    let n = t.len() as int;
    let x = text8(t);
    let y = text32(ranked(t));
    let mode = count_and_gather_lms_suffixes_8u_mode();
    let zs = separators(t);
    let k = ranked_symbols(t);
    lemma_ranked(t);
    lemma_ranked_lms(t);
    lemma_ranked_count(t, 0);
    lemma_separated_radix(t, m, s);
    let f = s.0[n - m] as int;
    let a = initialize_buckets_for_lms_suffixes_radix_sort_8u_run(x, s.1, f)->0;
    let z = radix_sorted_8u(t, n, m, true, (s.0, a.0))->0;
    lemma_first_closed(t, f);
    lemma_same_visits(t, f);
    assert(is_lms(x, f));
    assert(crate::partial_induction::first_lms(y, f)) by {
        assert(is_lms(y, f));
        assert forall|p: int| #[trigger] is_lms(y, p) implies f <= p by {
            assert(is_lms(x, p));
        }
    }
    let (g, low) = lemma_laid_field(ranked(t), k, f, z.0, false);
    let lefts = below_of(x, all_left(x, f));
    let rights = below_of(x, all_right(x, f));
    let lowest = below_of(x, every_lms(x));
    assert forall|c: int| 1 <= c <= 256 implies #[trigger] lefts(c) == start(g, ranked_symbol(t, c), true) by {
        lemma_ranked_below(t, all_left(x, f), all_left(y, f), c);
        assert(start(g, ranked_symbol(t, c), true) == below_of(y, all_left(y, f))(ranked_symbol(t, c)));
    }
    assert forall|c: int| 1 <= c <= 256 implies width(g) + 1 + #[trigger] rights(c) == start(g, ranked_symbol(t, c), false) by {
        lemma_ranked_below(t, all_right(x, f), all_right(y, f), c);
        assert(start(g, ranked_symbol(t, c), false) == width(g) + 1 + below_of(y, all_right(y, f))(ranked_symbol(t, c)));
    }
    assert forall|c: int| 1 <= c <= 256 implies #[trigger] lowest(c) == low_start(g, low, ranked_symbol(t, c)) by {
        lemma_ranked_below(t, every_lms(x), every_lms(y), c);
        assert(low_start(g, low, ranked_symbol(t, c)) == below_of(y, every_lms(y))(ranked_symbol(t, c)));
    }
    assert(ranked_symbol(t, 256) == k);
    lemma_ranked_below(t, all_left(x, f), all_left(y, f), 256);
    lemma_ranked_below(t, all_right(x, f), all_right(y, f), 256);
    assert(width(g) == lefts(256));
    assert(g.right.len() == rights(256));
    lemma_partial_buckets(t, f, mode, z.1, a.1 as int);
    let p = initialize_buckets_for_partial_sorting_8u_run(t, z.1, f, a.1 as int).unwrap().0;
    assert(separated_ready(t, g, low, z.0, p)) by {
        let zero: int = 0;
        assert(p[2 * zero] == width(g) + 1 + rights(zero + 1));
        assert(ranked_symbol(t, 1) == zs);
        assert(width(g) + 1 + rights(1) == start(g, ranked_symbol(t, 1), false));
        assert forall|c: int| first_closed(t, f) <= c <= zs implies #[trigger] start(g, c, true) == c - first_closed(t, f) by {
            lemma_left_closed(t, f, c);
        }
        assert forall|c: int| 0 <= c < zs implies #[trigger] low_start(g, low, c) == c by {
            lemma_lms_closed(t, c);
        }
        assert forall|c: int| 1 <= c < 256 implies p[#[trigger] (1024 + 2 * c)] == start(g, ranked_symbol(t, c), false) by {
            assert(width(g) + 1 + rights(c) == start(g, ranked_symbol(t, c), false));
        }
        assert forall|c: int| 1 <= c < 256 implies p[#[trigger] (1024 + 2 * c + 1)] == start(g, ranked_symbol(t, c), true) by {
            assert(z.1[1024 + 2 * c + 1] == lefts(c));
        }
        assert forall|c: int| 1 <= c < 256 implies p[#[trigger] (2 * c)] == start(g, ranked_symbol(t, c + 1), false) by {
            assert(width(g) + 1 + rights(c + 1) == start(g, ranked_symbol(t, c + 1), false));
        }
        assert forall|c: int| 1 <= c < 256 implies p[#[trigger] (2 * c + 1)] == low_start(g, low, ranked_symbol(t, c + 1)) by {
            assert(lowest(c + 1) == low_start(g, low, ranked_symbol(t, c + 1)));
        }
    }
    lemma_separated_scans(t, g, low, z.0, p);
    let o = partial_order_8u(t, n, true, f, width(g), (z.0, p))->0;
    lemma_low_marks(ranked(t), g, low, o.0);
    lemma_lane_renumbered(ranked(t), low, m, o.0, fs);
    let v = renumber_and_gather_run(o.0, n, m, fs)->0;
    assert(named_8u(t, n, m, true, fs, s) == Some((v.0, o.1, v.1 as int)));
    assert forall|c: int| 1 <= c < 256 implies o.1[#[trigger] (2 * c + 1)] == below_of(y, every_lms(y))(ranked_symbol(t, c)) by {
        assert(low_start(g, low, ranked_symbol(t, c)) == below_of(y, every_lms(y))(ranked_symbol(t, c)));
    }
    assert forall|j: int| 1536 <= j < s.1.len() implies #[trigger] o.1[j] == s.1[j] by {
        assert(p[j] == z.1[j]);
        assert(z.1[j] == s.1[j]);
    }
    (low, o.0)
}

/// Sorting by names sorts the leftmost suffixes of type S.
#[verifier::spinoff_prover]
proof fn lemma_separated_names_sort(
    t: Seq<u8>,
    m: int,
    fs: int,
    w: Seq<i32>,
    marks: Seq<i32>,
    s: Seq<i32>,
    names: int,
    done: bool,
    y: Seq<i32>,
)
    requires
        2 <= t.len() <= i32::MAX,
        well_separated(t),
        1 <= m == lms_count(text8(t), 0),
        0 <= fs,
        t.len() + fs <= s.len() <= isize::MAX,
        separated_named(t, m, fs, w, marks, s, names),
        lms_ordered_8u(t, t.len() as int, m, names, fs, s, done, y),
    ensures
        done,
        y.len() == s.len(),
        lms_sorted(ranked(t), y, m),
{
    let n = t.len() as int;
    let x = text8(t);
    let v = text32(ranked(t));
    if names < m {
        let r = choose|r: Seq<i32>| #[trigger] reduced_sorted(s, r, n, m, 0, fs) && computes(restored_8u(t, n, m, r), done, y);
        lemma_ranked(t);
        lemma_ranked_lms(t);
        lemma_ranked_count(t, 0);
        law_lms_few(x);
        law_last_type(x);
        lemma_gathered_all(x, r);
        let g0 = gather_lms_suffixes_32s_run(x, r, n)->0;
        assert(gather_lms_suffixes_8u_run(x, r, n, (n - 1) as isize, 0, n) == Some(g0)) by {
            assert(crate::gather::gather_lms_suffixes_8u_mode() == crate::gather::gather_lms_suffixes_32s_mode());
            assert(crate::gather::run_type(x, n, n - 1));
        }
        let g = g0.0.update(g0.2 as int, 1);
        assert forall|j: int| 0 <= j < m implies #[trigger] g[j] == r[j] by {
            assert(g[j] == g0.0[j] && g0.0[j] == r[j]);
        }
        assert(lists_all(v, g, m)) by {
            let sel = gathers(v, false);
            let sel8 = gathers(x, false);
            assert forall|j: int| n - m <= j < n implies 0 <= #[trigger] g[j] < n && sel(g[j] as int) by {
                assert(g[j] == g0.0[j]);
                assert(sel8(g0.0[j] as int));
                assert(is_lms(v, g[j] as int) == is_lms(x, g[j] as int));
            }
            assert forall|p: int| 0 <= p < n && #[trigger] sel(p) implies among(g, n - m, n, p as i32) by {
                assert(is_lms(v, p) == is_lms(x, p));
                assert(sel8(p));
                let j = lemma_found(g0.0, n - m, n, p as i32);
                assert(g[j] == g0.0[j]);
                lemma_among(g, n - m, n, j);
            }
        }
        assert forall|i: int| 0 <= i < n implies 0 <= #[trigger] ranked(t)[i] by {}
        lemma_lane_rebuilt(ranked(t), w, m, marks, fs, s, r, g);
    }
}

/// Where the counts and the ends of the small symbols stand in their tables.
spec fn ranked_mode(k: int) -> PlaceMode {
    PlaceMode { step: 2, sums: true, ends: (2 * k + 4) as usize, end_step: 1 }
}

/// The tables of the small symbols.
spec fn ranked_tables(t: Seq<u8>) -> Seq<i32> {
    let k = ranked_symbols(t);
    let y = text32(ranked(t));
    Seq::new(
        (3 * k + 4) as nat,
        |j: int|
            if j < 2 * k + 4 {
                below_of(y, every_lms(y))(j / 2) as i32
            } else {
                ranked_ends(t)[j - (2 * k + 4)]
            },
    )
}

/// The suffixes of the separators stay where they are.
proof fn lemma_separators_stay(t: Seq<u8>, s: (Seq<i32>, usize, usize), i: int)
    requires
        2 <= t.len() <= i32::MAX,
        well_separated(t),
        s.0.len() >= t.len(),
        s.1 == separators(t) - 1,
        separators(t) - 1 <= s.2 <= t.len(),
        0 <= i <= separators(t),
        forall|c: int| 0 <= c < separators(t) ==> #[trigger] ranked_ends(t)[c] == c + 1,
    ensures
        ({
            let r = fold_down(place_bucket_step(ranked_mode(ranked_symbols(t)), ranked_tables(t)), s, i, separators(t));
            &&& r is Some
            &&& i < separators(t) - 1 ==> r.unwrap() == (cleared(s.0, separators(t) - 1, s.2 as int), i as usize, i as usize)
            &&& i >= separators(t) - 1 ==> r.unwrap() == s
        }),
    decreases separators(t) - i,
{
    let z = separators(t);
    let k = ranked_symbols(t);
    let mode = ranked_mode(k);
    let b = ranked_tables(t);
    let y = text32(ranked(t));
    let below = below_of(y, every_lms(y));
    lemma_ranked(t);
    if i < z {
        lemma_separators_stay(t, s, i + 1);
        let r = fold_down(place_bucket_step(mode, b), s, i + 1, z)->0;
        assert(b[2 * i + 1] == below(i) as i32) by {
            assert((2 * i + 1) / 2 == i);
        }
        assert(b[2 * i + 3] == below(i + 1) as i32) by {
            assert((2 * i + 3) / 2 == i + 1);
        }
        lemma_lms_closed(t, i);
        assert(below(z) == z - 1) by {
            lemma_separator_bound(t);
        }
        if i + 1 < z {
            lemma_lms_closed(t, i + 1);
            assert(crate::place::lms_count(mode, b, i) == Some(1int));
            assert(b[2 * k + 4 + i] == ranked_ends(t)[i]);
            assert(mode.ends + mode.end_step * i == 2 * k + 4 + i);
            let c = cleared(r.0, i + 1, r.2 as int);
            assert(moved(c, i, 1, i) =~= c);
            if i + 1 < z - 1 {
                assert(c =~= r.0);
            } else {
                assert(c =~= cleared(s.0, z - 1, s.2 as int));
            }
        } else {
            assert(crate::place::lms_count(mode, b, i) == Some(0int));
        }
    }
}

/// How many leftmost suffixes of type S are separators.
proof fn lemma_separator_bound(t: Seq<u8>)
    requires
        2 <= t.len() <= i32::MAX,
        well_separated(t),
    ensures
        below_of(text32(ranked(t)), every_lms(text32(ranked(t))))(separators(t)) == separators(t) - 1,
{
    let y = text32(ranked(t));
    let n = t.len() as int;
    let z = separators(t);
    let a = crate::recount::with_smaller(y, every_lms(y), z);
    let b = crate::recount::with_smaller(y, every_lms(y), z - 1);
    lemma_ranked(t);
    lemma_ranked_lms(t);
    lemma_lms_closed(t, z - 1);
    assert forall|p: int| 0 <= p < n implies #[trigger] a(p) == b(p) by {
        if is_lms(y, p) && y[p] == z - 1 {
            assert(is_lms(text8(t), p));
            crate::separators::lemma_separator_alone(t, p, n - 1);
        }
    }
    crate::rebuild::lemma_tally_same(a, b, 0, n);
}

/// The tables of the small symbols hold the counts.
proof fn lemma_ranked_tables(t: Seq<u8>, c: int)
    requires
        2 <= t.len() <= i32::MAX,
        well_separated(t),
        0 <= c < ranked_symbols(t) + 2,
    ensures
        ranked_tables(t)[2 * c + 1] == below_of(text32(ranked(t)), every_lms(text32(ranked(t))))(c),
        0 <= below_of(text32(ranked(t)), every_lms(text32(ranked(t))))(c) <= t.len(),
        below_of(text32(ranked(t)), every_lms(text32(ranked(t))))(c) <= below_of(text32(ranked(t)), every_lms(text32(ranked(t))))(c + 1),
{
    let y = text32(ranked(t));
    lemma_ranked(t);
    lemma_below_bound(y, every_lms(y), c);
    lemma_below_grows(y, every_lms(y), c, c + 1);
    assert((2 * c + 1) / 2 == c);
}

/// The tables of the small symbols say what spreading looks for.
#[verifier::spinoff_prover]
proof fn lemma_ranked_tabled(t: Seq<u8>)
    requires
        2 <= t.len() <= i32::MAX,
        well_separated(t),
    ensures
        tabled(
            ranked_mode(ranked_symbols(t)),
            ranked_tables(t),
            ranked_symbols(t),
            ranked_ends(t),
            below_of(text32(ranked(t)), every_lms(text32(ranked(t)))),
        ),
{
    let y = text32(ranked(t));
    let k = ranked_symbols(t);
    let ends = ranked_ends(t);
    let below = below_of(y, every_lms(y));
    let mode = ranked_mode(k);
    let b = ranked_tables(t);
    lemma_ranked(t);
    assert forall|c: int| #![trigger below(c)] 0 <= c < k - 1 implies crate::place::lms_count(mode, b, c) == Some(below(c + 1) - below(c)) by {
        lemma_ranked_tables(t, c);
        lemma_ranked_tables(t, c + 1);
        assert(2 * (c + 1) + 1 == 2 * c + 1 + 2);
    }
    assert forall|c: int| #![trigger ends[c]] 0 <= c < k - 1 implies holds_end(mode, b, c, ends[c]) by {
        assert(mode.ends + mode.end_step * c == 2 * k + 4 + c);
        assert(b[2 * k + 4 + c] == ends[c]);
    }
}

/// With a bucket for each separator, the sorted leftmost suffixes of type S are put into their
/// buckets.
#[verifier::spinoff_prover]
proof fn lemma_ranked_placed(t: Seq<u8>, order: Seq<i32>, m: int, s: Seq<i32>, b0: Seq<i32>)
    requires
        2 <= t.len() <= i32::MAX,
        well_separated(t),
        t.len() <= s.len(),
        0 <= m <= t.len(),
        is_suffix_array(text32(ranked(t)), order),
        lms_sorted(ranked(t), s, m),
        byte_bounds(t, b0),
    ensures
        ({
            let n = t.len() as int;
            let k = ranked_symbols(t);
            let z = separators(t);
            let st = place_bucket_run(ranked_mode(k), ranked_tables(t), (s, m as usize, n as usize), z, k - 1);
            let pl = placed(ranked_mode(k), ranked_tables(t), s, n, m, k - 1);
            &&& st is Some
            &&& st.unwrap().0.len() == s.len()
            &&& st.unwrap().1 == z - 1
            &&& z <= st.unwrap().2 <= n
            &&& pl is Some
            &&& lms_in_place(ranked(t), order, pl->0)
        }),
{
    let n = t.len() as int;
    let w = ranked(t);
    let y = text32(w);
    let k = ranked_symbols(t);
    let z = separators(t);
    let ends = ranked_ends(t);
    let below = below_of(y, every_lms(y));
    let mode = ranked_mode(k);
    let b = ranked_tables(t);
    lemma_ranked(t);
    lemma_ranked_bounds(t, order, b0);
    lemma_separator_bound(t);
    lemma_sorted_grouped(w, s, m, k);
    lemma_ranked_tabled(t);
    assert(spreadable(w, order, s, m, k, ends, below));
    law_spread(w, order, s, m, k, ends, below, mode, b);
    lemma_spread_run(w, order, s, m, k, ends, below, mode, b, z);
    assert(ends[z - 1] == z);
    lemma_spread_in_place(w, order, s, m, placed(mode, b, s, n, m, k - 1)->0);
}

/// The suffixes of a byte that is no separator are put where those of its symbol are.
#[verifier::spinoff_prover]
proof fn lemma_placed_shifted(t: Seq<u8>, order: Seq<i32>, b: Seq<i32>, s: (Seq<i32>, usize, usize))
    requires
        2 <= t.len() <= i32::MAX,
        well_separated(t),
        is_suffix_array(text32(ranked(t)), order),
        byte_bounds(t, b),
        forall|c: int| 1 <= c < 256 ==> b[#[trigger] (2 * c + 1)] == below_of(
            text32(ranked(t)), every_lms(text32(ranked(t))))(ranked_symbol(t, c)),
    ensures
        place_bucket_run(mode_8u(), b.update(1792, (separators(t) - 1) as i32), s, 1, 255) == place_bucket_run(
            ranked_mode(ranked_symbols(t)), ranked_tables(t), s, separators(t), ranked_symbols(t) - 1),
{
    let k = ranked_symbols(t);
    let z = separators(t);
    let v = ranked_tables(t);
    let b2 = b.update(1792, (z - 1) as i32);
    let f = place_bucket_step(mode_8u(), b2);
    let h = place_bucket_step(ranked_mode(k), v);
    lemma_ranked(t);
    lemma_ranked_bounds(t, order, b);
    assert forall|q: (Seq<i32>, usize, usize), i: int| 1 <= i < 255 implies #[trigger] f(q, i) == h(q, i + (z - 1)) by {
        let c = ranked_symbol(t, i);
        assert(i + (z - 1) == c);
        assert(c + 1 == ranked_symbol(t, i + 1));
        lemma_ranked_tables(t, c);
        lemma_ranked_tables(t, c + 1);
        assert(b[2 * i + 1] == v[2 * c + 1]);
        assert(b[2 * (i + 1) + 1] == v[2 * (c + 1) + 1]);
        assert(2 * (i + 1) + 1 == 2 * i + 1 + 2);
        assert(2 * (c + 1) + 1 == 2 * c + 1 + 2);
        assert(crate::place::lms_count(mode_8u(), b2, i) == crate::place::lms_count(ranked_mode(k), v, c));
        assert(b2[1792 + i] == b[1792 + i]);
        assert(v[2 * k + 4 + c] == ranked_ends(t)[c]);
    }
    lemma_fold_shifted(f, h, s, z - 1, 1, 255);
}

/// The sorted leftmost suffixes of type S of separated texts are put into their buckets.
#[verifier::spinoff_prover]
proof fn lemma_separated_placed(t: Seq<u8>, order: Seq<i32>, m: int, flags: i32, s: PlaceState)
    requires
        2 <= t.len() <= i32::MAX,
        well_separated(t),
        t.len() <= s.0.len(),
        0 <= m <= t.len(),
        separated(flags),
        is_suffix_array(text32(ranked(t)), order),
        lms_sorted(ranked(t), s.0, m),
        byte_bounds(t, s.1),
        s.1[1] == 0,
        forall|c: int| 1 <= c < 256 ==> s.1[#[trigger] (2 * c + 1)] == below_of(
            text32(ranked(t)), every_lms(text32(ranked(t))))(ranked_symbol(t, c)),
    ensures
        place_lms_suffixes_interval_8u_run(s.0, t.len() as int, m, flags, s.1) is Some,
        separated_prepared(t, order, place_lms_suffixes_interval_8u_run(s.0, t.len() as int, m, flags, s.1)->0, s.1),
{
    let n = t.len() as int;
    let k = ranked_symbols(t);
    let z = separators(t);
    let mode = ranked_mode(k);
    let b = ranked_tables(t);
    let s0 = (s.0, m as usize, n as usize);
    let b2 = s.1.update(1792, (z - 1) as i32);
    lemma_ranked(t);
    lemma_ranked_bounds(t, order, s.1);
    lemma_separator_bound(t);
    lemma_ranked_placed(t, order, m, s.0, s.1);
    lemma_placed_shifted(t, order, s.1, s0);
    let st = place_bucket_run(mode, b, s0, z, k - 1)->0;
    lemma_separators_stay(t, st, 0);
    lemma_fold_down_split(place_bucket_step(mode, b), s0, 0, z, k - 1);
    let one: int = 1;
    assert(s.1[2 * one + 1] == z - 1) by {
        assert(ranked_symbol(t, one) == z);
    }
    assert(crate::place::lms_count(mode_8u(), b2, 0) == Some(z - 1));
    let x = place_bucket_step(mode_8u(), b2)(st, 0);
    assert(place_bucket_run(mode_8u(), b2, s0, 0, 255) == x);
    let pl = placed(mode, b, s.0, n, m, k - 1)->0;
    if z > 1 {
        let c = cleared(st.0, z - 1, st.2 as int);
        assert(moved(c, 0, z - 1, 0) =~= c);
        assert(x == Some((c, 0usize, 0usize)));
    } else {
        assert(x == Some(st));
    }
    assert(placed(mode_8u(), b2, s.0, n, m, 255) == Some(pl));
}

/// Without leftmost suffixes of type S an empty array holds them all.
proof fn lemma_separated_bare(t: Seq<u8>, order: Seq<i32>, g: PlaceState)
    requires
        byte_gathered(t, 0, g),
        well_separated(t),
        is_suffix_array(text32(ranked(t)), order),
        byte_bounds(t, g.1),
    ensures
        separated_prepared(t, order, cleared(g.0, 0, t.len() as int), g.1),
{
    let x = text8(t);
    let n = t.len() as int;
    let s = cleared(g.0, 0, n);
    lemma_ranked(t);
    lemma_ranked_lms(t);
    assert(lms_in_place(ranked(t), order, s)) by {
        let sel = gathers(x, false);
        assert forall|p: int| #[trigger] is_lms(text32(ranked(t)), p) implies exists|j: int| 0 <= j < n && #[trigger] s[j] == p by {
            assert(is_lms(x, p));
            assert(sel(p));
            let j = lemma_found(g.0, n, n, p as i32);
        }
    }
}

/// Induced sorting of separated texts sorts their suffixes, each separator in front of all bytes
/// and of the separators behind it: whatever order the sorting of the reduced text finds, it ends
/// in the suffix array.
pub proof fn law_separated_sort(t: Seq<u8>, sa: Seq<i32>, flags: i32, fs: int, len: nat, ok: bool, r: Seq<i32>)
    requires
        2 <= t.len(),
        0 <= fs,
        t.len() + fs <= i32::MAX,
        t.len() + fs <= sa.len() <= isize::MAX,
        2048 <= len,
        separated(flags),
        well_separated(t),
        induced_8u(t, sa, t.len() as i32, flags, fs, len, ok, r),
    ensures
        ok,
        is_suffix_array(separated_text(t), r.subrange(0, t.len() as int)),
{
    let n = t.len() as int;
    let x = text8(t);
    let y = text32(ranked(t));
    lemma_ranked(t);
    law_lms_few(x);
    law_suffix_array_exists(x);
    law_suffix_array_exists(y);
    let plain = choose|a: Seq<i32>| is_suffix_array(x, a);
    let order = choose|a: Seq<i32>| is_suffix_array(y, a);
    let (ready, s) = choose|ready: bool, s: PlaceState|
        #[trigger] readied_8u(t, sa, n as i32, flags, fs, len, ready, s) && (if ready {
            match final_order_8u(t, n as i32, separated(flags), 1, s) {
                Some(o) => ok && r == o.0,
                None => !ok,
            }
        } else {
            !ok
        });
    lemma_byte_gathered(t, plain, sa, len);
    let g = gathered_8u(t, sa, n, len)->0;
    let m = g.2;
    if m == 0 {
        lemma_separated_bare(t, order, (g.0, g.1));
    } else {
        let (w, marks) = lemma_separated_named(t, m, fs, (g.0, g.1));
        let v = named_8u(t, n, m, true, fs, (g.0, g.1))->0;
        let (done, q) = choose|done: bool, q: Seq<i32>|
            #[trigger] lms_ordered_8u(t, n, m, v.2, fs, v.0, done, q) && (if done {
                match place_lms_suffixes_interval_8u_run(q, n, m, flags, v.1) {
                    Some(p) => ready && s == (p, v.1),
                    None => !ready,
                }
            } else {
                !ready
            });
        lemma_separated_names_sort(t, m, fs, w, marks, v.0, v.2, done, q);
        assert(byte_bounds(t, v.1)) by {
            assert forall|c: int| 0 <= c < 256 implies v.1[#[trigger] (1536 + c)] == crate::bounds::count_below(
                crate::induction_8u::wide(t), c, n) by {
                assert(v.1[1536 + c] == g.1[1536 + c]);
            }
            assert forall|c: int| 0 <= c < 256 implies v.1[#[trigger] (1792 + c)] == crate::bounds::count_below(
                crate::induction_8u::wide(t), c + 1, n) by {
                assert(v.1[1792 + c] == g.1[1792 + c]);
            }
        }
        lemma_separated_placed(t, order, m, flags, (q, v.1));
    }
    law_final_order_separated(t, order, s.0, s.1);
    lemma_ranked_array(t, order);
}

} // verus!
