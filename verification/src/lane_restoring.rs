//! From the sorted reduced text to the sorted leftmost suffixes of type S, where none was left out
//! of it.

use vstd::prelude::*;
use crate::bounds::counted;
use crate::compact::reconstruct_compacted_2k_run;
use crate::gather::{
    count_and_gather_lms_suffixes_32s_2k_mode, count_and_gather_lms_suffixes_32s_2k_run, gather_lms_suffixes_32s_run,
    gather_lms_suffixes_8u_run, text32, text8,
};
use crate::induction::symbols_below;
use crate::induction_8u::{lemma_wide, wide};
use crate::kinds::{is_lms, law_last_type, lists_lms};
use crate::lane_names::{lane_name, lane_text, lemma_lane_names, marks_names};
use crate::lengths::{gathers, law_lms_few, lemma_gathered_all, lists_all};
use crate::main_32s::reduced_sorted;
use crate::main_8u::restored_8u;
use crate::partial_induction::lms_count;
use crate::placement::{among, lemma_among, lemma_found, lms_sorted};
use crate::rebuild::{lemma_all_counted, lemma_reconstruct};
use crate::reduction::law_reduced_text_sorts;
use crate::renumber::{reconstruct_lms_run, reconstruct_lms_suffixes_run};

verus! {

/// Without leftmost suffixes of type S between them, counts agree.
proof fn lemma_count_gap(x: Seq<int>, a: int, b: int)
    requires
        a <= b,
        forall|q: int| a <= q < b ==> !#[trigger] is_lms(x, q),
    ensures
        lms_count(x, a) == lms_count(x, b),
    decreases b - a,
{
    if a < b {
        lemma_count_gap(x, a + 1, b);
        assert(!is_lms(x, a));
    }
}

/// How many leftmost suffixes of type S a list holds from one of them on.
proof fn lemma_listed_count(x: Seq<int>, g: Seq<i32>, m: int, k: int)
    requires
        x.len() <= i32::MAX,
        0 <= m <= x.len() <= g.len(),
        lists_all(x, g, m),
        0 <= k < m,
    ensures
        lms_count(x, g[x.len() - m + k] as int) == m - k,
    decreases m - k,
{
    let n = x.len() as int;
    let sel = gathers(x, false);
    let at = n - m + k;
    let p = g[at] as int;
    assert(sel(g[at] as int));
    let e = if k + 1 < m {
        g[at + 1] as int
    } else {
        n
    };
    if k + 1 < m {
        lemma_listed_count(x, g, m, k + 1);
        assert(g[at] < g[at + 1]);
    } else {
        assert(lms_count(x, n) == 0);
    }
    assert forall|q: int| p + 1 <= q < e implies !#[trigger] is_lms(x, q) by {
        if is_lms(x, q) {
            assert(sel(q));
            let b = lemma_found(g, n - m, n, q as i32);
            if b < at {
                assert(g[b] < g[at]);
            } else if at + 1 < b {
                assert(g[at + 1] < g[b]);
            }
        }
    }
    lemma_count_gap(x, p + 1, e);
}

/// The sorted reduced text turns the gathered leftmost suffixes of type S into sorted ones.
pub proof fn lemma_lane_rebuilt(
    t: Seq<i32>,
    low: Seq<i32>,
    m: int,
    sa: Seq<i32>,
    fs: int,
    s: Seq<i32>,
    r: Seq<i32>,
    g: Seq<i32>,
)
    requires
        2 <= t.len() <= i32::MAX,
        forall|i: int| 0 <= i < t.len() ==> 0 <= #[trigger] t[i],
        marks_names(t, low, m, sa),
        1 <= m == lms_count(text32(t), 0),
        0 <= fs,
        t.len() + fs <= s.len() <= isize::MAX,
        forall|p: int| #[trigger] is_lms(text32(t), p) ==> s[t.len() + fs - lms_count(text32(t), p)] == lane_name(low, m, sa, p),
        reduced_sorted(s, r, t.len() as int, m, 0, fs),
        g.len() == r.len(),
        lists_all(text32(t), g, m),
        forall|j: int| 0 <= j < m ==> #[trigger] g[j] == r[j],
    ensures
        reconstruct_lms_suffixes_run(g, t.len() as int, m, 0, m) is Some,
        reconstruct_lms_suffixes_run(g, t.len() as int, m, 0, m).unwrap().len() == s.len(),
        lms_sorted(t, reconstruct_lms_suffixes_run(g, t.len() as int, m, 0, m)->0, m),
{
    let n = t.len() as int;
    let x = text32(t);
    law_lms_few(x);
    let e = r.subrange(0, m);
    let q = s.subrange(n + fs - m, n + fs);
    let p = g.subrange(n - m, n);
    let sel = gathers(x, false);
    assert forall|j: int| 0 <= j < m implies 0 <= #[trigger] g[j] < m && g[j] == e[j] by {
        assert(0 <= e[j] < text32(q).len());
    }
    lemma_reconstruct(n - m, g, m, m);
    let v = reconstruct_lms_run(n - m, g, 0, m)->0;
    assert(lists_lms(x, p, 0, n, 0, m)) by {
        assert forall|k: int| 0 <= k < m implies 0 <= #[trigger] p[k] < n && is_lms(x, p[k] as int) by {
            assert(p[k] == g[n - m + k]);
            assert(sel(g[n - m + k] as int));
        }
        assert forall|k: int, l: int| 0 <= k < l < m implies #[trigger] p[k] < #[trigger] p[l] by {
            assert(g[n - m + k] < g[n - m + l]);
        }
        assert forall|u: int| 0 <= u < n && #[trigger] is_lms(x, u) implies exists|k: int| 0 <= k < m && #[trigger] p[k] == u by {
            assert(sel(u));
            let j = lemma_found(g, n - m, n, u as i32);
            assert(p[j - (n - m)] == u);
        }
    }
    lemma_lane_names(t, low, m, sa, p);
    assert(text32(q) =~= lane_text(low, m, sa, p)) by {
        assert forall|k: int| 0 <= k < m implies #[trigger] text32(q)[k] == lane_text(low, m, sa, p)[k] by {
            lemma_listed_count(x, g, m, k);
            assert(p[k] == g[n - m + k]);
            assert(is_lms(x, p[k] as int));
        }
    }
    assert forall|i: int| 0 <= i < m implies #[trigger] v[i] == p[e[i] as int] by {
        assert(g[i] == e[i]);
        assert(v[i] == g[n - m + g[i]]);
    }
    law_reduced_text_sorts(t, p, text32(q), e, v);
}

/// The sorted reduced text of a byte text gives its sorted leftmost suffixes of type S.
pub proof fn lemma_lane_restored(t: Seq<u8>, low: Seq<i32>, m: int, sa: Seq<i32>, fs: int, s: Seq<i32>, r: Seq<i32>)
    requires
        2 <= t.len() <= i32::MAX,
        marks_names(wide(t), low, m, sa),
        1 <= m == lms_count(text8(t), 0),
        0 <= fs,
        t.len() + fs <= s.len() <= isize::MAX,
        forall|p: int| #[trigger] is_lms(text8(t), p) ==> s[t.len() + fs - lms_count(text8(t), p)] == lane_name(low, m, sa, p),
        reduced_sorted(s, r, t.len() as int, m, 0, fs),
    ensures
        restored_8u(t, t.len() as int, m, r) is Some,
        restored_8u(t, t.len() as int, m, r).unwrap().len() == s.len(),
        lms_sorted(wide(t), restored_8u(t, t.len() as int, m, r)->0, m),
{
    let n = t.len() as int;
    let x = text8(t);
    let w = wide(t);
    lemma_wide(t);
    law_lms_few(x);
    law_last_type(x);
    lemma_gathered_all(x, r);
    let g0 = gather_lms_suffixes_32s_run(x, r, n)->0;
    assert(gather_lms_suffixes_8u_run(x, r, n, (n - 1) as isize, 0, n) == Some(g0)) by {
        assert(crate::gather::gather_lms_suffixes_8u_mode() == crate::gather::gather_lms_suffixes_32s_mode());
        assert(crate::gather::run_type(x, n, n - 1));
    }
    let g = g0.0.update(g0.2 as int, 1);
    assert forall|j: int| 0 <= j < m implies #[trigger] g[j] == r[j] by {
        assert(g[j] == g0.0[j] && g0.0[j] == r[j]);
    }
    assert(lists_all(x, g, m)) by {
        let sel = gathers(x, false);
        assert forall|p: int| 0 <= p < n && #[trigger] sel(p) implies among(g, n - m, n, p as i32) by {
            let j = lemma_found(g0.0, n - m, n, p as i32);
            assert(g[j] == g0.0[j]);
            lemma_among(g, n - m, n, j);
        }
    }
    assert forall|i: int| 0 <= i < n implies 0 <= #[trigger] w[i] by {}
    lemma_lane_rebuilt(w, low, m, sa, fs, s, r, g);
}

/// The sorted reduced text gives the sorted leftmost suffixes of type S and the counts of all
/// suffixes, where none was left out of it.
pub proof fn lemma_lane_recounted(
    t: Seq<i32>,
    k: int,
    low: Seq<i32>,
    m: int,
    sa: Seq<i32>,
    fs: int,
    s: Seq<i32>,
    r: Seq<i32>,
    b: Seq<i32>,
)
    requires
        2 <= t.len() <= i32::MAX,
        symbols_below(t, k),
        2 * k <= b.len(),
        marks_names(t, low, m, sa),
        1 <= m == lms_count(text32(t), 0),
        0 <= fs,
        t.len() + fs <= s.len() <= isize::MAX,
        forall|p: int| #[trigger] is_lms(text32(t), p) ==> s[t.len() + fs - lms_count(text32(t), p)] == lane_name(low, m, sa, p),
        reduced_sorted(s, r, t.len() as int, m, 0, fs),
    ensures
        ({
            let v = reconstruct_compacted_2k_run(t, r, t.len() as int, k, m, fs, 0, b, 0, 1, 1, 1);
            &&& v is Some
            &&& v.unwrap().0 == t
            &&& v.unwrap().1.len() == s.len()
            &&& lms_sorted(t, v.unwrap().1, m)
            &&& v.unwrap().2.len() == b.len()
            &&& counted(t, count_and_gather_lms_suffixes_32s_2k_mode(), k, v.unwrap().2)
        }),
{
    let x = text32(t);
    let n = t.len() as int;
    law_lms_few(x);
    lemma_all_counted(t, r, k, b.len());
    let g = count_and_gather_lms_suffixes_32s_2k_run(x, r, n, b.len(), 0, n)->0;
    assert forall|i: int| 0 <= i < n implies 0 <= #[trigger] t[i] by {
        assert(0 <= t[i] < k);
    }
    assert forall|j: int| 0 <= j < m implies #[trigger] g.0[j] == r[j] by {}
    lemma_lane_rebuilt(t, low, m, sa, fs, s, r, g.0);
}

} // verus!
