//! Why spreading works: a list of suffixes of type S, sorted by first symbols, goes to the ends of
//! the buckets, in its order.

use vstd::prelude::*;
use crate::gather::{cleared, text32};
use crate::induction::{bucket_ends, lms_in_place, symbols_below};
use crate::kinds::{is_l, is_lms, law_type_step};
use crate::order::{is_suffix_array, suffix_less};
use crate::place::{lms_count, place_bucket_run, place_bucket_step, placed, PlaceMode};
use crate::placement::{among, lemma_among, lemma_behind, lemma_found, lemma_ranked, lms_sorted};
use crate::scattering::lemma_room;
use crate::span::moved;

verus! {

/// Whether the first `m` entries of `s` are different leftmost suffixes of type S, and `below`
/// says how many of them start with a symbol below another.
pub open spec fn grouped(t: Seq<i32>, s: Seq<i32>, m: int, k: int, below: spec_fn(int) -> int) -> bool {
    &&& 0 <= m <= s.len()
    &&& forall|a: int| 0 <= a < m ==> is_lms(text32(t), #[trigger] s[a] as int)
    &&& forall|a: int, b: int| 0 <= a < b < m ==> #[trigger] s[a] != #[trigger] s[b]
    &&& forall|c: int| 0 <= c <= k ==> 0 <= #[trigger] below(c) <= m
    &&& forall|a: int, c: int| #![trigger s[a], below(c)]
        0 <= a < m && 0 <= c <= k ==> (t[s[a] as int] < c) == (a < below(c))
}

/// Whether the buckets say how many suffixes there are of each symbol and where its bucket ends.
pub open spec fn tabled(mode: PlaceMode, b: Seq<i32>, k: int, ends: Seq<i32>, below: spec_fn(int) -> int) -> bool {
    &&& forall|c: int| #![trigger below(c)] 0 <= c < k - 1 ==> lms_count(mode, b, c) == Some(below(c + 1) - below(c))
    &&& forall|c: int| #![trigger ends[c]] 0 <= c < k - 1 ==> holds_end(mode, b, c, ends[c])
}

/// Whether the buckets say that the bucket of `c` ends at `end`.
pub open spec fn holds_end(mode: PlaceMode, b: Seq<i32>, c: int, end: i32) -> bool {
    mode.ends + mode.end_step * c < b.len() && b[mode.ends + mode.end_step * c] == end
}

/// Everything that spreading starts from.
pub open spec fn spreadable(
    t: Seq<i32>,
    sa: Seq<i32>,
    s: Seq<i32>,
    m: int,
    k: int,
    ends: Seq<i32>,
    below: spec_fn(int) -> int,
) -> bool {
    &&& 1 <= t.len() <= i32::MAX
    &&& t.len() <= s.len()
    &&& m <= t.len()
    &&& 1 <= k <= i32::MAX
    &&& is_suffix_array(text32(t), sa)
    &&& symbols_below(t, k)
    &&& bucket_ends(t, sa, k, ends)
    &&& grouped(t, s, m, k, below)
}

/// Whether `r` holds the entries of the list from `a` on in the slots from `l` on, each in its
/// bucket among the suffixes of type S, in the order of the list, and zeros elsewhere.
pub open spec fn spread(t: Seq<i32>, sa: Seq<i32>, s: Seq<i32>, a: int, m: int, r: Seq<i32>, l: int) -> bool {
    let n = t.len() as int;
    let x = text32(t);
    &&& forall|j: int| l <= j < n && #[trigger] r[j] != 0 ==> !is_l(x, sa[j] as int) && t[sa[j] as int] == t[r[j] as int]
        && among(s, a, m, r[j])
    &&& forall|i: int, j: int| l <= i < j < n && #[trigger] r[i] != 0 && #[trigger] r[j] != 0 ==> listed_before(s, a, m, r[i], r[j])
    &&& forall|b: int| a <= b < m ==> among(r, l, n, #[trigger] s[b])
}

/// Whether `u` stands before `v` in the list.
#[verifier::opaque]
pub open spec fn listed_before(s: Seq<i32>, a: int, m: int, u: i32, v: i32) -> bool {
    exists|b: int, c: int| a <= b < c < m && #[trigger] s[b] == u && #[trigger] s[c] == v
}

/// Entries in their order.
proof fn lemma_listed_before(s: Seq<i32>, a: int, m: int, b: int, c: int)
    requires
        a <= b < c < m,
    ensures
        listed_before(s, a, m, s[b], s[c]),
{
    reveal(listed_before);
}

/// Where entries stand.
pub proof fn lemma_listed_pair(s: Seq<i32>, a: int, m: int, u: i32, v: i32) -> (r: (int, int))
    requires
        listed_before(s, a, m, u, v),
    ensures
        a <= r.0 < r.1 < m,
        s[r.0] == u,
        s[r.1] == v,
{
    reveal(listed_before);
    choose|b: int, c: int| a <= b < c < m && #[trigger] s[b] == u && #[trigger] s[c] == v
}

/// A longer list keeps the order.
proof fn lemma_listed_wider(s: Seq<i32>, a: int, b: int, m: int, u: i32, v: i32)
    requires
        a <= b,
        listed_before(s, b, m, u, v),
    ensures
        listed_before(s, a, m, u, v),
{
    reveal(listed_before);
}

/// The suffixes of the first buckets fit in front of their end.
pub proof fn lemma_fit(t: Seq<i32>, sa: Seq<i32>, s: Seq<i32>, m: int, k: int, ends: Seq<i32>, below: spec_fn(int) -> int, c: int)
    requires
        spreadable(t, sa, s, m, k, ends, below),
        0 <= c < k,
    ensures
        below(c + 1) <= ends[c] <= t.len(),
{
    let n = t.len() as int;
    let q = below(c + 1);
    let from = vstd::set_lib::set_int_range(0, q);
    let to = vstd::set_lib::set_int_range(0, ends[c] as int);
    assert(0 <= ends[c] <= sa.len());
    assert(0 <= below(c + 1) <= m);
    vstd::set_lib::lemma_int_range(0, q);
    vstd::set_lib::lemma_int_range(0, ends[c] as int);
    let g = |a: int| crate::induction::slot_of(sa, n, s[a] as int);
    assert forall|a: int| 0 <= a < q implies 0 <= #[trigger] g(a) < ends[c] && sa[g(a)] == s[a] by {
        assert(is_lms(text32(t), s[a] as int));
        let r = lemma_ranked(t, sa, s[a] as int);
        assert(0 <= r < n && sa[r] == s[a]);
        assert(t[s[a] as int] < c + 1);
        assert(t[sa[g(a)] as int] <= c);
    }
    assert(vstd::relations::injective_on(g, from)) by {
        assert forall|a: int, b: int| from.contains(a) && from.contains(b) && #[trigger] g(a) == #[trigger] g(b) implies a == b by {
            if a < b {
                assert(s[a] != s[b]);
            } else if b < a {
                assert(s[b] != s[a]);
            }
        }
    }
    vstd::set_lib::lemma_map_size(from, from.map(g), g);
    assert(from.map(g).subset_of(to));
    vstd::set_lib::lemma_len_subset(from.map(g), to);
}

/// The last slots of a bucket belong to suffixes of type S.
proof fn lemma_last_slots(
    t: Seq<i32>,
    sa: Seq<i32>,
    s: Seq<i32>,
    m: int,
    k: int,
    ends: Seq<i32>,
    below: spec_fn(int) -> int,
    c: int,
    j: int,
)
    requires
        spreadable(t, sa, s, m, k, ends, below),
        0 <= c < k,
        below(c) < below(c + 1),
        ends[c] - (below(c + 1) - below(c)) <= j < ends[c],
    ensures
        0 <= j < sa.len(),
        !is_l(text32(t), sa[j] as int),
        t[sa[j] as int] == c,
{
    let x = text32(t);
    let q = below(c + 1);
    let y = ends[c] - (q - below(c));
    lemma_fit(t, sa, s, m, k, ends, below, c);
    assert(0 <= below(c) <= m && 0 <= below(c + 1) <= m);
    let e = |i: int| s[below(c) + (i - y)] as int;
    assert forall|i: int| y <= i < ends[c] implies 0 <= #[trigger] e(i) < t.len() && !is_l(x, e(i)) && t[e(i)] == c by {
        let a = below(c) + (i - y);
        assert(is_lms(x, s[a] as int));
        assert((t[s[a] as int] < c + 1) == (a < below(c + 1)));
        assert((t[s[a] as int] < c) == (a < below(c)));
    }
    assert forall|i: int, l: int| y <= i < l < ends[c] implies #[trigger] e(i) != #[trigger] e(l) by {
        assert(s[below(c) + (i - y)] != s[below(c) + (l - y)]);
    }
    lemma_room(t, sa, k, ends, c, y, e);
    lemma_behind(t, sa, k, ends, y, j);
}

/// The state of the spreading when the symbols from `c` on have been treated.
pub open spec fn spread_at(
    t: Seq<i32>,
    sa: Seq<i32>,
    s: Seq<i32>,
    m: int,
    ends: Seq<i32>,
    below: spec_fn(int) -> int,
    st: (Seq<i32>, usize, usize),
    c: int,
) -> bool {
    let n = t.len() as int;
    let (cur, q, l) = st;
    &&& cur.len() == s.len()
    &&& q == below(c)
    &&& l <= n
    &&& forall|d: int| 0 <= d < c ==> #[trigger] ends[d] <= l
    &&& forall|a: int| 0 <= a < q ==> #[trigger] cur[a] == s[a]
    &&& forall|j: int| n <= j < s.len() ==> #[trigger] cur[j] == s[j]
    &&& spread(t, sa, s, below(c), m, cur, l as int)
}

/// Treating one more symbol keeps the state.
#[verifier::spinoff_prover]
proof fn lemma_spread_step(
    t: Seq<i32>,
    sa: Seq<i32>,
    s: Seq<i32>,
    m: int,
    k: int,
    ends: Seq<i32>,
    below: spec_fn(int) -> int,
    mode: PlaceMode,
    b: Seq<i32>,
    st: (Seq<i32>, usize, usize),
    c: int,
)
    requires
        spreadable(t, sa, s, m, k, ends, below),
        tabled(mode, b, k, ends, below),
        0 <= c < k - 1,
        spread_at(t, sa, s, m, ends, below, st, c + 1),
    ensures
        place_bucket_step(mode, b)(st, c) is Some,
        spread_at(t, sa, s, m, ends, below, place_bucket_step(mode, b)(st, c)->0, c),
{
    let n = t.len() as int;
    let x = text32(t);
    let (cur, q, l) = st;
    let lo = below(c);
    let size = below(c + 1) - below(c);
    assert(lms_count(mode, b, c) == Some(size));
    assert(0 <= below(c) <= m && 0 <= below(c + 1) <= m);
    lemma_fit(t, sa, s, m, k, ends, below, c);
    assert(ends[c] <= l);
    let nx = place_bucket_step(mode, b)(st, c)->0;
    if size == 0 {
        assert(nx == st);
    } else {
        let end = ends[c] as int;
        let y = end - size;
        let s1 = cleared(cur, end, l as int);
        assert(nx == (moved(s1, lo, size, y), lo as usize, y as usize));
        assert(lo + size == q);
        let r = nx.0;
        assert forall|j: int| y <= j < end implies #[trigger] r[j] == s[lo + (j - y)] by {
            assert(s1[lo + (j - y)] == cur[lo + (j - y)]);
        }
        assert forall|d: int| 0 <= d < c implies #[trigger] ends[d] <= y by {
            lemma_last_slots(t, sa, s, m, k, ends, below, c, y);
            assert(!(t[sa[y] as int] <= d));
        }
        assert forall|j: int| y <= j < n && #[trigger] r[j] != 0 implies !is_l(x, sa[j] as int) && t[sa[j] as int] == t[r[j] as int]
            && among(s, lo, m, r[j]) by {
            if j < end {
                lemma_last_slots(t, sa, s, m, k, ends, below, c, j);
                let a = lo + (j - y);
                assert((t[s[a] as int] < c + 1) == (a < below(c + 1)));
                assert((t[s[a] as int] < c) == (a < below(c)));
                lemma_among(s, lo, m, a);
            } else {
                assert(j >= l && r[j] == cur[j]);
                let a = lemma_found(s, below(c + 1), m, cur[j]);
                lemma_among(s, lo, m, a);
            }
        }
        assert forall|i: int, j: int| y <= i < j < n && #[trigger] r[i] != 0 && #[trigger] r[j] != 0 implies listed_before(
            s,
            lo,
            m,
            r[i],
            r[j],
        ) by {
            if j < end {
                lemma_listed_before(s, lo, m, lo + (i - y), lo + (j - y));
            } else {
                assert(j >= l && r[j] == cur[j]);
                if i < end {
                    let a = lemma_found(s, below(c + 1), m, cur[j]);
                    lemma_listed_before(s, lo, m, lo + (i - y), a);
                } else {
                    assert(i >= l && r[i] == cur[i]);
                    lemma_listed_wider(s, lo, below(c + 1), m, cur[i], cur[j]);
                }
            }
        }
        assert forall|a: int| lo <= a < m implies among(r, y, n, #[trigger] s[a]) by {
            if a < q {
                assert(r[y + (a - lo)] == s[lo + (y + (a - lo) - y)]);
                lemma_among(r, y, n, y + (a - lo));
            } else {
                let j = lemma_found(cur, l as int, n, s[a]);
                assert(r[j] == cur[j]);
                lemma_among(r, y, n, j);
            }
        }
    }
}

/// The spreading runs from symbol to symbol.
pub proof fn lemma_spread_run(
    t: Seq<i32>,
    sa: Seq<i32>,
    s: Seq<i32>,
    m: int,
    k: int,
    ends: Seq<i32>,
    below: spec_fn(int) -> int,
    mode: PlaceMode,
    b: Seq<i32>,
    c: int,
)
    requires
        spreadable(t, sa, s, m, k, ends, below),
        tabled(mode, b, k, ends, below),
        0 <= c <= k - 1,
    ensures
        ({
            let st = place_bucket_run(mode, b, (s, m as usize, t.len() as usize), c, k - 1);
            st is Some && spread_at(t, sa, s, m, ends, below, st->0, c)
        }),
    decreases k - c,
{
    let n = t.len() as int;
    let x = text32(t);
    if c < k - 1 {
        lemma_spread_run(t, sa, s, m, k, ends, below, mode, b, c + 1);
        let st = place_bucket_run(mode, b, (s, m as usize, n as usize), c + 1, k - 1)->0;
        lemma_spread_step(t, sa, s, m, k, ends, below, mode, b, st, c);
    } else {
        assert(below(k - 1) == m) by {
            assert(0 <= below(k - 1) <= m);
            if below(k - 1) < m {
                let a = below(k - 1);
                assert((t[s[a] as int] < k - 1) == (a < below(k - 1)));
                assert(is_lms(x, s[a] as int));
                let p = s[a] as int;
                law_type_step(x, p - 1);
                assert(0 <= t[p - 1] < k && 0 <= t[p] < k);
            }
        }
        assert forall|d: int| 0 <= d < c implies #[trigger] ends[d] <= n by {
            assert(0 <= ends[d] <= sa.len());
        }
    }
}

/// Spreading puts each suffix of a list that is sorted by first symbols at the end of its bucket,
/// among the slots of the suffixes of type S, in the order of the list.
pub proof fn law_spread(
    t: Seq<i32>,
    sa: Seq<i32>,
    s: Seq<i32>,
    m: int,
    k: int,
    ends: Seq<i32>,
    below: spec_fn(int) -> int,
    mode: PlaceMode,
    b: Seq<i32>,
)
    requires
        spreadable(t, sa, s, m, k, ends, below),
        tabled(mode, b, k, ends, below),
    ensures
        placed(mode, b, s, t.len() as int, m, k - 1) is Some,
        placed(mode, b, s, t.len() as int, m, k - 1).unwrap().len() == s.len(),
        spread(t, sa, s, 0, m, placed(mode, b, s, t.len() as int, m, k - 1)->0, 0),
{
    let n = t.len() as int;
    lemma_spread_run(t, sa, s, m, k, ends, below, mode, b, 0);
    let st = place_bucket_run(mode, b, (s, m as usize, n as usize), 0, k - 1)->0;
    let l = st.2 as int;
    let r = cleared(st.0, 0, l);
    assert(placed(mode, b, s, n, m, k - 1) == Some(r));
    assert(below(0) == 0) by {
        assert(0 <= below(0) <= m);
        if below(0) > 0 {
            assert((t[s[0] as int] < 0) == (0 < below(0)));
            assert(is_lms(text32(t), s[0] as int));
            assert(0 <= t[s[0] as int]);
        }
    }
    assert forall|a: int| 0 <= a < m implies among(r, 0, n, #[trigger] s[a]) by {
        let j = lemma_found(st.0, l, n, s[a]);
        assert(r[j] == st.0[j]);
        lemma_among(r, 0, n, j);
    }
    assert forall|j: int| 0 <= j < n && #[trigger] r[j] != 0 implies !is_l(text32(t), sa[j] as int) && t[sa[j] as int]
        == t[r[j] as int] && among(s, 0, m, r[j]) by {
        assert(j >= l && r[j] == st.0[j]);
    }
    assert forall|i: int, j: int| 0 <= i < j < n && #[trigger] r[i] != 0 && #[trigger] r[j] != 0 implies listed_before(
        s,
        0,
        m,
        r[i],
        r[j],
    ) by {
        assert(r[i] == st.0[i] && r[j] == st.0[j]);
    }
}

/// Spread sorted suffixes are in place.
pub proof fn lemma_spread_in_place(t: Seq<i32>, sa: Seq<i32>, s: Seq<i32>, m: int, r: Seq<i32>)
    requires
        t.len() <= i32::MAX,
        t.len() <= r.len(),
        lms_sorted(t, s, m),
        spread(t, sa, s, 0, m, r, 0),
    ensures
        lms_in_place(t, sa, r),
{
    let n = t.len() as int;
    let x = text32(t);
    assert forall|j: int| 0 <= j < n && #[trigger] r[j] != 0 implies is_lms(x, r[j] as int) && !is_l(x, sa[j] as int)
        && t[sa[j] as int] == t[r[j] as int] by {
        let a = lemma_found(s, 0, m, r[j]);
        assert(is_lms(x, s[a] as int));
    }
    assert forall|j: int, l: int| 0 <= j < l < n && #[trigger] r[j] != 0 && #[trigger] r[l] != 0 implies suffix_less(
        x,
        r[j] as int,
        r[l] as int,
    ) by {
        let (a, b) = lemma_listed_pair(s, 0, m, r[j], r[l]);
        assert(suffix_less(x, s[a] as int, s[b] as int));
    }
    assert forall|p: int| #[trigger] is_lms(x, p) implies exists|j: int| 0 <= j < n && #[trigger] r[j] == p by {
        let a = lemma_found(s, 0, m, p as i32);
        assert(s[a] == p);
        let j = lemma_found(r, 0, n, s[a]);
        assert(r[j] == p);
    }
}

} // verus!
