//! Longest common prefixes of neighbours in a suffix array.

use vstd::prelude::*;
use crate::bytes::separated_text;
use crate::fold::{fold_up, lemma_fold_up_prefix};
use crate::gather::{text32, text8};
use crate::marks::{within, word_within};
use crate::order::{
    is_suffix_array, law_suffix_array_complete, lemma_rank_order, lemma_suffix_array_distinct,
    suffix_less,
};
use crate::types::{FastSint, SaSint};

verus! {

/// The length of the longest common prefix of the suffixes of `t` at `i` and `j`.
pub open spec fn common_prefix(t: Seq<int>, i: int, j: int) -> nat
    decreases t.len() - i,
{
    if i >= t.len() || j >= t.len() || t[i] != t[j] {
        0
    } else {
        common_prefix(t, i + 1, j + 1) + 1
    }
}

/// Whether `plcp` gives, for each suffix, the length of the longest prefix it shares with
/// the suffix before it in `sa`; the first suffix has none before it.
pub open spec fn is_plcp(t: Seq<int>, sa: Seq<i32>, plcp: Seq<i32>) -> bool {
    &&& plcp.len() == sa.len()
    &&& forall|k: int| 0 <= k < sa.len() ==> plcp[#[trigger] sa[k] as int] == shared_with_previous(t, sa, k)
}

/// The length of the longest prefix that the suffix at rank `k` shares with the one before.
pub open spec fn shared_with_previous(t: Seq<int>, sa: Seq<i32>, k: int) -> int {
    if k == 0 {
        0
    } else {
        common_prefix(t, sa[k - 1] as int, sa[k] as int) as int
    }
}

/// The suffix before the one at rank `k`; before the first there is the empty suffix.
pub open spec fn suffix_at_rank_before(sa: Seq<i32>, k: int) -> int {
    if k == 0 {
        sa.len() as int
    } else {
        sa[k - 1] as int
    }
}

/// Two suffixes share what they share, whichever comes first.
proof fn lemma_common_prefix_symmetric(t: Seq<int>, i: int, j: int)
    ensures
        common_prefix(t, i, j) == common_prefix(t, j, i),
    decreases t.len() - i,
{
    if i < t.len() && j < t.len() && t[i] == t[j] {
        lemma_common_prefix_symmetric(t, i + 1, j + 1);
    }
}

/// Nearer suffixes share more: where `a` is before `b` and `b` before `c`, the suffixes at
/// `b` and `c` share at least what those at `a` and `c` do.
proof fn lemma_nearer_shares_more(t: Seq<int>, a: int, b: int, c: int)
    requires
        suffix_less(t, a, b) || a == b,
        suffix_less(t, b, c),
    ensures
        common_prefix(t, a, c) <= common_prefix(t, b, c),
    decreases t.len() - a,
{
    if a != b && a < t.len() && b < t.len() && c < t.len() && t[a] == t[c] {
        assert(t[a] <= t[b] && t[b] <= t[c]);
        lemma_nearer_shares_more(t, a + 1, b + 1, c + 1);
    }
}

/// The prefix shared with the suffix before shrinks by at most one from a suffix to the next
/// one in the text.
pub proof fn law_plcp_shrinks_slowly(t: Seq<int>, sa: Seq<i32>, k: int, l: int)
    requires
        is_suffix_array(t, sa),
        0 <= k < sa.len(),
        0 <= l < sa.len(),
        sa[l] == sa[k] + 1,
    ensures
        shared_with_previous(t, sa, l) >= shared_with_previous(t, sa, k) - 1,
{
    if k > 0 && shared_with_previous(t, sa, k) > 1 {
        let i = sa[k] as int;
        let j = sa[k - 1] as int;
        assert(suffix_less(t, j, i));
        assert(t[j] == t[i]);
        assert(suffix_less(t, j + 1, i + 1));
        assert(common_prefix(t, j + 1, i + 1) == common_prefix(t, j, i) - 1);
        assert(j + 1 < t.len());
        law_suffix_array_complete(t, sa, j + 1);
        let x = choose|x: int| 0 <= x < sa.len() && #[trigger] sa[x] == j + 1;
        lemma_rank_order(t, sa, x, l);
        assert(l > 0);
        assert(suffix_less(t, sa[l - 1] as int, sa[l] as int));
        if x < l - 1 {
            assert(suffix_less(t, sa[x] as int, sa[l - 1] as int));
        }
        lemma_nearer_shares_more(t, j + 1, sa[l - 1] as int, i + 1);
    }
}

/// Notes for the suffix at rank `i` the suffix before it; before the first stands `n`.
pub open spec fn phi_step(sa: Seq<i32>, n: i32) -> spec_fn(Seq<i32>, int) -> Option<Seq<i32>> {
    |s: Seq<i32>, i: int|
        {
            let plcp = s;
            if 0 <= i < sa.len() && 0 <= sa[i] < plcp.len() {
                Some(plcp.update(sa[i] as int, if i > 0 { sa[i - 1] } else { n }))
            } else {
                None
            }
        }
}

/// [`phi_step`] over the positions from `lo` to `hi`, upward.
pub open spec fn phi_run(sa: Seq<i32>, n: i32, s: Seq<i32>, lo: int, hi: int) -> Option<Seq<i32>> {
    fold_up(phi_step(sa, n), s, lo, hi)
}

/// Performs one step, or returns `false` where the step is outside its domain.
fn phi_at(
    sa: &[SaSint],
    n: SaSint,
    plcp: &mut [SaSint],
    i: FastSint,
) -> (ok: bool)
    ensures
        ok == (phi_step(sa@, n)(old(plcp)@, i as int) is Some),
        ok ==> phi_step(sa@, n)(old(plcp)@, i as int) == Some(final(plcp)@),
        final(plcp).len() == old(plcp).len(),
{
    if !word_within(i, sa.len()) {
        return false;
    }
    let r: usize = i as usize;
    if !within(sa[r], plcp.len()) {
        return false;
    }
    plcp[sa[r] as usize] = if r > 0 { sa[r - 1] } else { n };
    true
}

/// Runs the steps as far as they are defined; `false` where one is not.
pub(crate) fn try_phi(
    sa: &[SaSint],
    n: SaSint,
    plcp: &mut [SaSint],
    lo: FastSint,
    hi: FastSint,
) -> (ok: bool)
    ensures
        ok == (phi_run(sa@, n, old(plcp)@, lo as int, hi as int) is Some),
        ok ==> phi_run(sa@, n, old(plcp)@, lo as int, hi as int) == Some(final(plcp)@),
        final(plcp).len() == old(plcp).len(),
{
    let mut i: FastSint = lo;
    let ghost step = phi_step(sa@, n);
    let ghost s0 = plcp@;
    while i < hi
        invariant
            lo <= i,
            i <= hi || hi < lo,
            hi < lo ==> i == lo,
            step == phi_step(sa@, n),
            s0 == old(plcp)@,
            fold_up(step, s0, lo as int, i as int) == Some(plcp@),
            plcp.len() == old(plcp).len(),
        decreases hi - i,
    {
        proof {
            lemma_fold_up_prefix(step, s0, lo as int, i + 1, hi as int);
        }
        if !phi_at(sa, n, plcp, i) {
            return false;
        }
        i += 1;
    }
    true
}

/// Notes for each suffix of a block of ranks the suffix before it.
pub fn compute_phi(
    sa: &[SaSint],
    plcp: &mut [SaSint],
    n: SaSint,
    omp_block_start: FastSint,
    omp_block_size: FastSint,
)
    requires
        0 <= omp_block_start,
        0 <= omp_block_size,
        omp_block_start + omp_block_size <= n,
        phi_run(sa@, n, old(plcp)@, omp_block_start as int, omp_block_start + omp_block_size) is Some,
    ensures
        phi_run(sa@, n, old(plcp)@, omp_block_start as int, omp_block_start + omp_block_size) == Some(final(plcp)@),
        final(plcp).len() == old(plcp).len(),
{
    let _ok: bool = try_phi(sa, n, plcp, omp_block_start, omp_block_start + omp_block_size);
}

/// Notes for each suffix the suffix before it.
pub fn compute_phi_omp(sa: &[SaSint], plcp: &mut [SaSint], n: SaSint, _threads: SaSint)
    requires
        0 <= n,
        phi_run(sa@, n, old(plcp)@, 0, n as int) is Some,
    ensures
        phi_run(sa@, n, old(plcp)@, 0, n as int) == Some(final(plcp)@),
        final(plcp).len() == old(plcp).len(),
{
    compute_phi(sa, plcp, n, 0, n as FastSint);
}

/// The first length from `l` on, below `max`, at which the suffixes at `i` and `k` differ.
pub open spec fn extended(t: Seq<int>, i: int, k: int, l: int, max: int) -> int
    decreases max - l,
{
    if l < max && t[i + l] == t[k + l] {
        extended(t, i, k, l + 1, max)
    } else {
        l
    }
}

/// Replaces the suffix before the suffix at `i` by the length of the prefix they share. The
/// state also holds how long that is at least.
pub open spec fn plcp_step(t: Seq<int>, n: int) -> spec_fn((Seq<i32>, usize), int) -> Option<(Seq<i32>, usize)> {
    |s: (Seq<i32>, usize), i: int|
        {
            let (plcp, l) = s;
            let k = plcp[i];
            let max = n - (if i >= k { i } else { k as int });
            let x = extended(t, i, k as int, l as int, max);
            if 0 <= i < n <= t.len() && i < plcp.len() && 0 <= k <= n && x <= i32::MAX {
                Some((plcp.update(i, x as i32), (if x > 0 { x - 1 } else { 0 }) as usize))
            } else {
                None
            }
        }
}

/// [`plcp_step`] over the positions from `lo` to `hi`, upward.
pub open spec fn plcp_run(t: Seq<int>, n: int, s: (Seq<i32>, usize), lo: int, hi: int) -> Option<(Seq<i32>, usize)> {
    fold_up(plcp_step(t, n), s, lo, hi)
}

/// Performs one step, or returns `false` where the step is outside its domain.
fn plcp_8u_at(
    t: &[u8],
    n: usize,
    plcp: &mut [SaSint],
    l: &mut usize,
    i: FastSint,
) -> (ok: bool)
    ensures
        ok == (plcp_step(text8(t@), n as int)((old(plcp)@, *old(l)), i as int) is Some),
        ok ==> plcp_step(text8(t@), n as int)((old(plcp)@, *old(l)), i as int) == Some((final(plcp)@, *final(l))),
        final(plcp).len() == old(plcp).len(),
{
    if n > t.len() || !word_within(i, n) || !word_within(i, plcp.len()) {
        return false;
    }
    let s: usize = i as usize;
    if plcp[s] < 0 || plcp[s] as usize > n {
        return false;
    }
    let k: usize = plcp[s] as usize;
    let max: usize = n - (if s >= k { s } else { k });
    let mut x: usize = *l;
    while x < max && t[s + x] == t[k + x]
        invariant
            s < n <= t.len(),
            k <= n,
            max == n - (if s >= k { s } else { k }),
            extended(text8(t@), s as int, k as int, *l as int, max as int)
                == extended(text8(t@), s as int, k as int, x as int, max as int),
        decreases max - x,
    {
        x += 1;
    }
    if x as u64 > 0x7fff_ffff {
        return false;
    }
    plcp[s] = x as SaSint;
    *l = if x > 0 { x - 1 } else { 0 };
    true
}

/// Runs the steps as far as they are defined; `false` where one is not.
pub(crate) fn try_plcp_8u(
    t: &[u8],
    n: usize,
    plcp: &mut [SaSint],
    l: &mut usize,
    lo: FastSint,
    hi: FastSint,
) -> (ok: bool)
    ensures
        ok == (plcp_run(text8(t@), n as int, (old(plcp)@, *old(l)), lo as int, hi as int) is Some),
        ok ==> plcp_run(text8(t@), n as int, (old(plcp)@, *old(l)), lo as int, hi as int) == Some((final(plcp)@, *final(l))),
        final(plcp).len() == old(plcp).len(),
{
    let mut i: FastSint = lo;
    let ghost step = plcp_step(text8(t@), n as int);
    let ghost s0 = (plcp@, *l);
    while i < hi
        invariant
            lo <= i,
            i <= hi || hi < lo,
            hi < lo ==> i == lo,
            step == plcp_step(text8(t@), n as int),
            s0 == (old(plcp)@, *old(l)),
            fold_up(step, s0, lo as int, i as int) == Some((plcp@, *l)),
            plcp.len() == old(plcp).len(),
        decreases hi - i,
    {
        proof {
            lemma_fold_up_prefix(step, s0, lo as int, i + 1, hi as int);
        }
        if !plcp_8u_at(t, n, plcp, l, i) {
            return false;
        }
        i += 1;
    }
    true
}

/// Performs one step, or returns `false` where the step is outside its domain.
fn plcp_32s_at(
    t: &[SaSint],
    n: usize,
    plcp: &mut [SaSint],
    l: &mut usize,
    i: FastSint,
) -> (ok: bool)
    ensures
        ok == (plcp_step(text32(t@), n as int)((old(plcp)@, *old(l)), i as int) is Some),
        ok ==> plcp_step(text32(t@), n as int)((old(plcp)@, *old(l)), i as int) == Some((final(plcp)@, *final(l))),
        final(plcp).len() == old(plcp).len(),
{
    if n > t.len() || !word_within(i, n) || !word_within(i, plcp.len()) {
        return false;
    }
    let s: usize = i as usize;
    if plcp[s] < 0 || plcp[s] as usize > n {
        return false;
    }
    let k: usize = plcp[s] as usize;
    let max: usize = n - (if s >= k { s } else { k });
    let mut x: usize = *l;
    while x < max && t[s + x] == t[k + x]
        invariant
            s < n <= t.len(),
            k <= n,
            max == n - (if s >= k { s } else { k }),
            extended(text32(t@), s as int, k as int, *l as int, max as int)
                == extended(text32(t@), s as int, k as int, x as int, max as int),
        decreases max - x,
    {
        x += 1;
    }
    if x as u64 > 0x7fff_ffff {
        return false;
    }
    plcp[s] = x as SaSint;
    *l = if x > 0 { x - 1 } else { 0 };
    true
}

/// Runs the steps as far as they are defined; `false` where one is not.
pub(crate) fn try_plcp_32s(
    t: &[SaSint],
    n: usize,
    plcp: &mut [SaSint],
    l: &mut usize,
    lo: FastSint,
    hi: FastSint,
) -> (ok: bool)
    ensures
        ok == (plcp_run(text32(t@), n as int, (old(plcp)@, *old(l)), lo as int, hi as int) is Some),
        ok ==> plcp_run(text32(t@), n as int, (old(plcp)@, *old(l)), lo as int, hi as int) == Some((final(plcp)@, *final(l))),
        final(plcp).len() == old(plcp).len(),
{
    let mut i: FastSint = lo;
    let ghost step = plcp_step(text32(t@), n as int);
    let ghost s0 = (plcp@, *l);
    while i < hi
        invariant
            lo <= i,
            i <= hi || hi < lo,
            hi < lo ==> i == lo,
            step == plcp_step(text32(t@), n as int),
            s0 == (old(plcp)@, *old(l)),
            fold_up(step, s0, lo as int, i as int) == Some((plcp@, *l)),
            plcp.len() == old(plcp).len(),
        decreases hi - i,
    {
        proof {
            lemma_fold_up_prefix(step, s0, lo as int, i + 1, hi as int);
        }
        if !plcp_32s_at(t, n, plcp, l, i) {
            return false;
        }
        i += 1;
    }
    true
}

/// Where a block ends: not behind the text.
pub open spec fn block_end(start: isize, size: isize, n: int) -> int {
    if start + size < n {
        start + size
    } else {
        n
    }
}

/// Replaces, for each suffix of a block of a byte text, the suffix before it by the length of the
/// prefix they share.
pub fn compute_plcp(t: &[u8], plcp: &mut [SaSint], n: FastSint, omp_block_start: FastSint, omp_block_size: FastSint)
    requires
        0 <= n,
        0 <= omp_block_start,
        0 <= omp_block_size,
        omp_block_start + omp_block_size <= isize::MAX,
        plcp_run(text8(t@), n as int, (old(plcp)@, 0), omp_block_start as int, block_end(omp_block_start, omp_block_size, n as int)) is Some,
    ensures
        plcp_run(text8(t@), n as int, (old(plcp)@, 0), omp_block_start as int, block_end(omp_block_start, omp_block_size, n as int)).unwrap().0
            == final(plcp)@,
        final(plcp).len() == old(plcp).len(),
{
    let end: FastSint = omp_block_start + omp_block_size;
    let mut l: usize = 0;
    let _ok: bool = try_plcp_8u(t, n as usize, plcp, &mut l, omp_block_start, if end < n { end } else { n });
}

/// Replaces, for each suffix of a byte text, the suffix before it by the length of the prefix they
/// share.
pub fn compute_plcp_omp(t: &[u8], plcp: &mut [SaSint], n: SaSint, _threads: SaSint)
    requires
        0 <= n,
        plcp_run(text8(t@), n as int, (old(plcp)@, 0), 0, n as int) is Some,
    ensures
        plcp_run(text8(t@), n as int, (old(plcp)@, 0), 0, n as int).unwrap().0 == final(plcp)@,
        final(plcp).len() == old(plcp).len(),
{
    compute_plcp(t, plcp, n as FastSint, 0, n as FastSint);
}

/// Replaces, for each suffix of a block of an integer text, the suffix before it by the length of the
/// prefix they share.
pub fn compute_plcp_int(t: &[SaSint], plcp: &mut [SaSint], n: FastSint, omp_block_start: FastSint, omp_block_size: FastSint)
    requires
        0 <= n,
        0 <= omp_block_start,
        0 <= omp_block_size,
        omp_block_start + omp_block_size <= isize::MAX,
        plcp_run(text32(t@), n as int, (old(plcp)@, 0), omp_block_start as int, block_end(omp_block_start, omp_block_size, n as int)) is Some,
    ensures
        plcp_run(text32(t@), n as int, (old(plcp)@, 0), omp_block_start as int, block_end(omp_block_start, omp_block_size, n as int)).unwrap().0
            == final(plcp)@,
        final(plcp).len() == old(plcp).len(),
{
    let end: FastSint = omp_block_start + omp_block_size;
    let mut l: usize = 0;
    let _ok: bool = try_plcp_32s(t, n as usize, plcp, &mut l, omp_block_start, if end < n { end } else { n });
}

/// Replaces, for each suffix of an integer text, the suffix before it by the length of the prefix they
/// share.
pub fn compute_plcp_int_omp(t: &[SaSint], plcp: &mut [SaSint], n: SaSint, _threads: SaSint)
    requires
        0 <= n,
        plcp_run(text32(t@), n as int, (old(plcp)@, 0), 0, n as int) is Some,
    ensures
        plcp_run(text32(t@), n as int, (old(plcp)@, 0), 0, n as int).unwrap().0 == final(plcp)@,
        final(plcp).len() == old(plcp).len(),
{
    compute_plcp_int(t, plcp, n as FastSint, 0, n as FastSint);
}

/// The first length from `l` on at which the suffixes at `i` and `k` differ or the one at
/// `i` reaches a separator; `None` where the text ends before.
pub open spec fn extended_gsa(t: Seq<u8>, i: int, k: int, l: int) -> Option<int>
    decreases t.len() - (i + l),
{
    if !(0 <= i + l < t.len()) {
        None
    } else if t[i + l] == 0 {
        Some(l)
    } else if !(0 <= k + l < t.len()) {
        None
    } else if t[i + l] == t[k + l] {
        extended_gsa(t, i, k, l + 1)
    } else {
        Some(l)
    }
}

/// Computes [`extended_gsa`].
fn extend_gsa(t: &[u8], i: usize, k: usize, l: usize) -> (r: Option<usize>)
    requires
        t.len() <= isize::MAX,
        k <= i32::MAX,
    ensures
        r is Some == (extended_gsa(t@, i as int, k as int, l as int) is Some),
        r is Some ==> r->0 == extended_gsa(t@, i as int, k as int, l as int)->0,
{
    let n: usize = t.len();
    if i >= n || l >= n - i {
        return None;
    }
    let mut x: usize = l;
    while x < n - i
        invariant
            i < n == t.len(),
            n <= isize::MAX,
            k <= i32::MAX,
            x <= n - i,
            extended_gsa(t@, i as int, k as int, l as int) == extended_gsa(t@, i as int, k as int, x as int),
        decreases n - x,
    {
        if t[i + x] == 0 {
            return Some(x);
        }
        if k >= n || x >= n - k {
            return None;
        }
        if t[i + x] != t[k + x] {
            return Some(x);
        }
        x += 1;
    }
    None
}

/// Replaces the suffix before the suffix at `i` by the length of the prefix they share, up to
/// a separator. The state also holds how long that is at least.
pub open spec fn plcp_gsa_step(t: Seq<u8>) -> spec_fn((Seq<i32>, usize), int) -> Option<(Seq<i32>, usize)> {
    |s: (Seq<i32>, usize), i: int|
        {
            let (plcp, l) = s;
            let k = plcp[i];
            let x = extended_gsa(t, i, k as int, l as int);
            if 0 <= i < t.len() && i < plcp.len() && 0 <= k && x is Some && x->0 <= i32::MAX {
                Some((plcp.update(i, x->0 as i32), (if x->0 > 0 { x->0 - 1 } else { 0 }) as usize))
            } else {
                None
            }
        }
}

/// [`plcp_gsa_step`] over the positions from `lo` to `hi`, upward.
pub open spec fn plcp_gsa_run(t: Seq<u8>, s: (Seq<i32>, usize), lo: int, hi: int) -> Option<(Seq<i32>, usize)> {
    fold_up(plcp_gsa_step(t), s, lo, hi)
}

/// Performs one step, or returns `false` where the step is outside its domain.
fn plcp_gsa_at(
    t: &[u8],
    plcp: &mut [SaSint],
    l: &mut usize,
    i: FastSint,
) -> (ok: bool)
    requires
        t.len() <= isize::MAX,
    ensures
        ok == (plcp_gsa_step(t@)((old(plcp)@, *old(l)), i as int) is Some),
        ok ==> plcp_gsa_step(t@)((old(plcp)@, *old(l)), i as int) == Some((final(plcp)@, *final(l))),
        final(plcp).len() == old(plcp).len(),
{
    if !word_within(i, t.len()) || !word_within(i, plcp.len()) {
        return false;
    }
    let s: usize = i as usize;
    if plcp[s] < 0 {
        return false;
    }
    match extend_gsa(t, s, plcp[s] as usize, *l) {
        Some(x) => {
            if x as u64 > 0x7fff_ffff {
                return false;
            }
            plcp[s] = x as SaSint;
            *l = if x > 0 { x - 1 } else { 0 };
            true
        },
        None => false,
    }
}

/// Runs the steps as far as they are defined; `false` where one is not.
pub(crate) fn try_plcp_gsa(
    t: &[u8],
    plcp: &mut [SaSint],
    l: &mut usize,
    lo: FastSint,
    hi: FastSint,
) -> (ok: bool)
    requires
        t.len() <= isize::MAX,
    ensures
        ok == (plcp_gsa_run(t@, (old(plcp)@, *old(l)), lo as int, hi as int) is Some),
        ok ==> plcp_gsa_run(t@, (old(plcp)@, *old(l)), lo as int, hi as int) == Some((final(plcp)@, *final(l))),
        final(plcp).len() == old(plcp).len(),
{
    let mut i: FastSint = lo;
    let ghost step = plcp_gsa_step(t@);
    let ghost s0 = (plcp@, *l);
    while i < hi
        invariant
            lo <= i,
            i <= hi || hi < lo,
            hi < lo ==> i == lo,
            step == plcp_gsa_step(t@),
            s0 == (old(plcp)@, *old(l)),
            t.len() <= isize::MAX,
            fold_up(step, s0, lo as int, i as int) == Some((plcp@, *l)),
            plcp.len() == old(plcp).len(),
        decreases hi - i,
    {
        proof {
            lemma_fold_up_prefix(step, s0, lo as int, i + 1, hi as int);
        }
        if !plcp_gsa_at(t, plcp, l, i) {
            return false;
        }
        i += 1;
    }
    true
}

/// Replaces, for each suffix of a block of separated texts, the suffix before it by the
/// length of the prefix they share, up to a separator.
pub fn compute_plcp_gsa(t: &[u8], plcp: &mut [SaSint], omp_block_start: FastSint, omp_block_size: FastSint)
    requires
        t.len() <= isize::MAX,
        0 <= omp_block_start,
        0 <= omp_block_size,
        omp_block_start + omp_block_size <= isize::MAX,
        plcp_gsa_run(t@, (old(plcp)@, 0), omp_block_start as int, block_end(omp_block_start, omp_block_size, t.len() as int)) is Some,
    ensures
        plcp_gsa_run(t@, (old(plcp)@, 0), omp_block_start as int, block_end(omp_block_start, omp_block_size, t.len() as int)).unwrap().0
            == final(plcp)@,
        final(plcp).len() == old(plcp).len(),
{
    let end: FastSint = omp_block_start + omp_block_size;
    let n: FastSint = t.len() as FastSint;
    let mut l: usize = 0;
    let _ok: bool = try_plcp_gsa(t, plcp, &mut l, omp_block_start, if end < n { end } else { n });
}

/// Replaces, for each of the first `n` suffixes of separated texts, the suffix before it by
/// the length of the prefix they share, up to a separator.
pub fn compute_plcp_gsa_omp(t: &[u8], plcp: &mut [SaSint], n: SaSint, _threads: SaSint)
    requires
        t.len() <= isize::MAX,
        0 <= n,
        plcp_gsa_run(t@, (old(plcp)@, 0), 0, block_end(0, n as isize, t.len() as int)) is Some,
    ensures
        plcp_gsa_run(t@, (old(plcp)@, 0), 0, block_end(0, n as isize, t.len() as int)).unwrap().0 == final(plcp)@,
        final(plcp).len() == old(plcp).len(),
{
    compute_plcp_gsa(t, plcp, 0, n as FastSint);
}

/// The values of `plcp` in the order of `sa`, in the slots from `lo` up to `hi`.
pub open spec fn reordered(plcp: Seq<i32>, sa: Seq<i32>, lcp: Seq<i32>, lo: int, hi: int) -> Seq<i32> {
    Seq::new(lcp.len(), |i: int| if lo <= i < hi { plcp[sa[i] as int] } else { lcp[i] })
}

/// Whether every entry of `sa` from `lo` up to `hi` is a position of `plcp`.
pub open spec fn selects(plcp: Seq<i32>, sa: Seq<i32>, lo: int, hi: int) -> bool {
    forall|i: int| lo <= i < hi ==> 0 <= #[trigger] sa[i] < plcp.len()
}

/// Brings the lengths of a block of ranks from text order to the order of the suffix array.
pub fn compute_lcp(
    plcp: &[SaSint],
    sa: &[SaSint],
    lcp: &mut [SaSint],
    omp_block_start: FastSint,
    omp_block_size: FastSint,
)
    requires
        0 <= omp_block_start,
        0 <= omp_block_size,
        omp_block_start + omp_block_size <= usize::MAX,
        block_end(omp_block_start, omp_block_size, sa.len() as int) <= old(lcp).len(),
        selects(plcp@, sa@, omp_block_start as int, block_end(omp_block_start, omp_block_size, sa.len() as int)),
    ensures
        final(lcp)@ == reordered(plcp@, sa@, old(lcp)@, omp_block_start as int,
            block_end(omp_block_start, omp_block_size, sa.len() as int)),
{
    let start: usize = omp_block_start as usize;
    let stop: usize = start + omp_block_size as usize;
    let end: usize = if stop < sa.len() { stop } else { sa.len() };
    let mut i: usize = start;
    while i < end
        invariant
            start <= i,
            i <= end || i == start,
            end <= sa.len(),
            end <= lcp.len(),
            selects(plcp@, sa@, start as int, end as int),
            lcp@ =~= reordered(plcp@, sa@, old(lcp)@, start as int, i as int),
        decreases end - i,
    {
        lcp[i] = plcp[sa[i] as usize];
        i += 1;
    }
    assert(lcp@ =~= reordered(plcp@, sa@, old(lcp)@, start as int, end as int));
}

/// Brings the lengths of the first `n` ranks from text order to the order of the suffix
/// array.
pub fn compute_lcp_omp(plcp: &[SaSint], sa: &[SaSint], lcp: &mut [SaSint], n: SaSint, _threads: SaSint)
    requires
        0 <= n,
        block_end(0, n as isize, sa.len() as int) <= old(lcp).len(),
        selects(plcp@, sa@, 0, block_end(0, n as isize, sa.len() as int)),
    ensures
        final(lcp)@ == reordered(plcp@, sa@, old(lcp)@, 0, block_end(0, n as isize, sa.len() as int)),
{
    compute_lcp(plcp, sa, lcp, 0, n as FastSint);
}

/// Whether the lengths for the suffixes from `from` on hold `phi`, and those before the
/// shared lengths.
pub open spec fn plcp_progress(t: Seq<int>, sa: Seq<i32>, plcp: Seq<i32>, from: int) -> bool {
    &&& plcp.len() == sa.len()
    &&& forall|k: int| 0 <= k < sa.len() ==> plcp[#[trigger] sa[k] as int] == (if sa[k] < from {
        shared_with_previous(t, sa, k)
    } else {
        suffix_at_rank_before(sa, k)
    })
}

/// Filling in phi for a permutation of the suffixes.
proof fn lemma_phi(t: Seq<int>, sa: Seq<i32>, n: i32, plcp: Seq<i32>, hi: int)
    requires
        is_suffix_array(t, sa),
        n == sa.len(),
        plcp.len() == sa.len(),
        0 <= hi <= sa.len(),
    ensures
        phi_run(sa, n, plcp, 0, hi) is Some,
        phi_run(sa, n, plcp, 0, hi)->0.len() == plcp.len(),
        forall|k: int| 0 <= k < hi ==> phi_run(sa, n, plcp, 0, hi)->0[#[trigger] sa[k] as int] == suffix_at_rank_before(sa, k),
    decreases hi,
{
    if hi > 0 {
        lemma_phi(t, sa, n, plcp, hi - 1);
        let p = phi_run(sa, n, plcp, 0, hi - 1)->0;
        assert(0 <= sa[hi - 1] < plcp.len());
        assert forall|k: int| 0 <= k < hi implies phi_run(sa, n, plcp, 0, hi)->0[#[trigger] sa[k] as int] == suffix_at_rank_before(sa, k) by {
            if k < hi - 1 && sa[k] == sa[hi - 1] {
                lemma_suffix_array_distinct(t, sa, k, hi - 1);
            }
        }
    }
}

/// Extending a length that both suffixes share leads to the longest one.
proof fn lemma_extended(t: Seq<int>, i: int, k: int, l: int)
    requires
        0 <= i <= t.len(),
        0 <= k <= t.len(),
        0 <= l <= common_prefix(t, i, k),
    ensures
        extended(t, i, k, l, t.len() - (if i >= k { i } else { k })) == common_prefix(t, i, k),
    decreases common_prefix(t, i, k) - l,
{
    lemma_prefix_agrees(t, i, k, l);
    if l < common_prefix(t, i, k) {
        lemma_extended(t, i, k, l + 1);
    }
}

/// Below the length of the longest common prefix the symbols agree, and there they differ
/// or a suffix ends.
proof fn lemma_prefix_agrees(t: Seq<int>, i: int, k: int, l: int)
    requires
        0 <= i <= t.len(),
        0 <= k <= t.len(),
        0 <= l <= common_prefix(t, i, k),
    ensures
        i + common_prefix(t, i, k) <= t.len(),
        k + common_prefix(t, i, k) <= t.len(),
        l < common_prefix(t, i, k) ==> t[i + l] == t[k + l],
        l == common_prefix(t, i, k) ==> i + l >= t.len() || k + l >= t.len() || t[i + l] != t[k + l],
    decreases common_prefix(t, i, k),
{
    if i < t.len() && k < t.len() && t[i] == t[k] {
        if l > 0 {
            lemma_prefix_agrees(t, i + 1, k + 1, l - 1);
        } else {
            lemma_prefix_agrees(t, i + 1, k + 1, 0);
        }
    }
}

/// A suffix shares nothing with the empty one.
proof fn lemma_first_shares_nothing(t: Seq<int>, sa: Seq<i32>, k: int)
    requires
        is_suffix_array(t, sa),
        0 <= k < sa.len(),
    ensures
        common_prefix(t, sa[k] as int, suffix_at_rank_before(sa, k)) == shared_with_previous(t, sa, k),
{
    if k > 0 {
        lemma_common_prefix_symmetric(t, sa[k - 1] as int, sa[k] as int);
    }
}

/// What the state promises in front of suffix `i`: the length kept is not too long.
pub open spec fn carry_fits(t: Seq<int>, sa: Seq<i32>, l: int, i: int) -> bool {
    0 <= l && forall|k: int| 0 <= k < sa.len() && #[trigger] sa[k] == i ==> l <= shared_with_previous(t, sa, k)
}

/// From one suffix to the next the promise is kept.
proof fn lemma_carry(t: Seq<int>, sa: Seq<i32>, k: int, l: int)
    requires
        is_suffix_array(t, sa),
        0 <= k < sa.len(),
        l == (if shared_with_previous(t, sa, k) > 0 { shared_with_previous(t, sa, k) - 1 } else { 0 }),
    ensures
        carry_fits(t, sa, l, sa[k] + 1),
{
    assert forall|x: int| 0 <= x < sa.len() && #[trigger] sa[x] == sa[k] + 1 implies l <= shared_with_previous(t, sa, x) by {
        law_plcp_shrinks_slowly(t, sa, k, x);
    }
}

/// From phi of a suffix array, the scan reaches the shared lengths.
proof fn lemma_plcp(t: Seq<int>, sa: Seq<i32>, plcp: Seq<i32>, hi: int)
    requires
        is_suffix_array(t, sa),
        t.len() <= i32::MAX,
        plcp_progress(t, sa, plcp, 0),
        0 <= hi <= t.len(),
    ensures
        plcp_run(t, t.len() as int, (plcp, 0), 0, hi) is Some,
        ({
            let x = plcp_run(t, t.len() as int, (plcp, 0), 0, hi)->0;
            plcp_progress(t, sa, x.0, hi) && carry_fits(t, sa, x.1 as int, hi)
        }),
    decreases hi,
{
    if hi > 0 {
        lemma_plcp(t, sa, plcp, hi - 1);
        let x = plcp_run(t, t.len() as int, (plcp, 0), 0, hi - 1)->0;
        let i = hi - 1;
        law_suffix_array_complete(t, sa, i);
        let k = choose|k: int| 0 <= k < sa.len() && #[trigger] sa[k] == i;
        lemma_first_shares_nothing(t, sa, k);
        lemma_extended(t, i, suffix_at_rank_before(sa, k), x.1 as int);
        lemma_prefix_agrees(t, i, suffix_at_rank_before(sa, k), 0);
        lemma_carry(t, sa, k, if shared_with_previous(t, sa, k) > 0 { shared_with_previous(t, sa, k) - 1 } else { 0 });
        let y = plcp_run(t, t.len() as int, (plcp, 0), 0, hi)->0;
        assert forall|z: int| 0 <= z < sa.len() implies y.0[#[trigger] sa[z] as int] == (if sa[z] < hi {
            shared_with_previous(t, sa, z)
        } else {
            suffix_at_rank_before(sa, z)
        }) by {
            if sa[z] == i {
                lemma_suffix_array_distinct(t, sa, z, k);
            }
        }
    } else {
        assert(carry_fits(t, sa, 0, 0)) by {
            assert forall|k: int| 0 <= k < sa.len() && #[trigger] sa[k] == 0 implies 0 <= shared_with_previous(t, sa, k) by {}
        }
    }
}

/// In separated texts, running up to a separator leads to the longest common prefix.
proof fn lemma_extended_gsa(t: Seq<u8>, i: int, k: int, l: int)
    requires
        0 <= i < t.len(),
        0 <= k <= t.len(),
        i != k,
        0 <= l <= common_prefix(separated_text(t), i, k),
        t[t.len() - 1] == 0,
        k == t.len() ==> t[i] == 0,
    ensures
        extended_gsa(t, i, k, l) == Some(common_prefix(separated_text(t), i, k) as int),
    decreases common_prefix(separated_text(t), i, k) - l,
{
    let s = separated_text(t);
    lemma_prefix_agrees(s, i, k, l);
    if l < common_prefix(s, i, k) {
        assert(s[i + l] == s[k + l]);
        lemma_extended_gsa(t, i, k, l + 1);
    } else {
        if k + l >= t.len() && k < t.len() && l > 0 {
            lemma_prefix_agrees(s, i, k, l - 1);
            assert(s[i + (l - 1)] == s[k + (l - 1)]);
            assert(false);
        }
        if i + l >= t.len() && l > 0 {
            lemma_prefix_agrees(s, i, k, l - 1);
            assert(s[i + (l - 1)] == s[k + (l - 1)]);
            assert(false);
        }
    }
}

/// The first suffix of separated texts starts with a separator.
proof fn lemma_first_is_separator(t: Seq<u8>, sa: Seq<i32>)
    requires
        is_suffix_array(separated_text(t), sa),
        t.len() > 0,
        t[t.len() - 1] == 0,
    ensures
        t[sa[0] as int] == 0,
{
    let s = separated_text(t);
    if t[sa[0] as int] != 0 {
        law_suffix_array_complete(s, sa, t.len() - 1);
        let k = choose|k: int| 0 <= k < sa.len() && #[trigger] sa[k] == t.len() - 1;
        assert(suffix_less(s, sa[0] as int, sa[k] as int));
    }
}

/// From phi of the suffix array of separated texts, the scan reaches the shared lengths.
#[verifier::spinoff_prover]
#[verifier::rlimit(60)]
proof fn lemma_plcp_gsa(t: Seq<u8>, sa: Seq<i32>, plcp: Seq<i32>, hi: int)
    requires
        is_suffix_array(separated_text(t), sa),
        0 < t.len() <= i32::MAX,
        t[t.len() - 1] == 0,
        plcp_progress(separated_text(t), sa, plcp, 0),
        0 <= hi <= t.len(),
    ensures
        plcp_gsa_run(t, (plcp, 0), 0, hi) is Some,
        ({
            let x = plcp_gsa_run(t, (plcp, 0), 0, hi)->0;
            plcp_progress(separated_text(t), sa, x.0, hi) && carry_fits(separated_text(t), sa, x.1 as int, hi)
        }),
    decreases hi,
{
    let s = separated_text(t);
    if hi > 0 {
        lemma_plcp_gsa(t, sa, plcp, hi - 1);
        let x = plcp_gsa_run(t, (plcp, 0), 0, hi - 1)->0;
        let i = hi - 1;
        law_suffix_array_complete(s, sa, i);
        let k = choose|k: int| 0 <= k < sa.len() && #[trigger] sa[k] == i;
        lemma_first_shares_nothing(s, sa, k);
        if k == 0 {
            lemma_first_is_separator(t, sa);
        } else if sa[k - 1] == sa[k] {
            lemma_suffix_array_distinct(s, sa, k - 1, k);
        }
        lemma_extended_gsa(t, i, suffix_at_rank_before(sa, k), x.1 as int);
        lemma_prefix_agrees(s, i, suffix_at_rank_before(sa, k), 0);
        lemma_carry(s, sa, k, if shared_with_previous(s, sa, k) > 0 { shared_with_previous(s, sa, k) - 1 } else { 0 });
        let y = plcp_gsa_run(t, (plcp, 0), 0, hi)->0;
        assert forall|z: int| 0 <= z < sa.len() implies y.0[#[trigger] sa[z] as int] == (if sa[z] < hi {
            shared_with_previous(s, sa, z)
        } else {
            suffix_at_rank_before(sa, z)
        }) by {
            if sa[z] == i {
                lemma_suffix_array_distinct(s, sa, z, k);
            }
        }
    } else {
        assert(carry_fits(s, sa, 0, 0)) by {
            assert forall|k: int| 0 <= k < sa.len() && #[trigger] sa[k] == 0 implies 0 <= shared_with_previous(s, sa, k) by {}
        }
    }
}

/// The lengths that the suffixes of `t` share with the suffixes before them in `sa`, as
/// computed from the order in which `sa` lists them.
pub open spec fn plcp_values_plain(t: Seq<int>, sa: Seq<i32>, plcp: Seq<i32>) -> Option<Seq<i32>> {
    match phi_run(sa, t.len() as i32, plcp, 0, t.len() as int) {
        Some(p) => match plcp_run(t, t.len() as int, (p, 0), 0, t.len() as int) {
            Some(x) => Some(x.0),
            None => None,
        },
        None => None,
    }
}

/// For a suffix array the computed lengths are the lengths of the longest common prefixes.
pub proof fn law_plcp_values_plain(t: Seq<int>, sa: Seq<i32>, plcp: Seq<i32>)
    requires
        is_suffix_array(t, sa),
        t.len() <= i32::MAX,
        plcp.len() == t.len(),
    ensures
        plcp_values_plain(t, sa, plcp) is Some,
        is_plcp(t, sa, plcp_values_plain(t, sa, plcp)->0),
{
    lemma_phi(t, sa, t.len() as i32, plcp, t.len() as int);
    let p = phi_run(sa, t.len() as i32, plcp, 0, t.len() as int)->0;
    lemma_plcp(t, sa, p, t.len() as int);
}

/// The lengths that the suffixes of separated texts share with the suffixes before them in
/// `sa`, as computed from the order in which `sa` lists them.
pub open spec fn plcp_values_gsa(t: Seq<u8>, sa: Seq<i32>, plcp: Seq<i32>) -> Option<Seq<i32>> {
    match phi_run(sa, t.len() as i32, plcp, 0, t.len() as int) {
        Some(p) => match plcp_gsa_run(t, (p, 0), 0, t.len() as int) {
            Some(x) => Some(x.0),
            None => None,
        },
        None => None,
    }
}

/// For the suffix array of separated texts the computed lengths are the lengths of the
/// longest common prefixes, which end at separators.
pub proof fn law_plcp_values_gsa(t: Seq<u8>, sa: Seq<i32>, plcp: Seq<i32>)
    requires
        is_suffix_array(separated_text(t), sa),
        0 < t.len() <= i32::MAX,
        t[t.len() - 1] == 0,
        plcp.len() == t.len(),
    ensures
        plcp_values_gsa(t, sa, plcp) is Some,
        is_plcp(separated_text(t), sa, plcp_values_gsa(t, sa, plcp)->0),
{
    lemma_phi(separated_text(t), sa, t.len() as i32, plcp, t.len() as int);
    let p = phi_run(sa, t.len() as i32, plcp, 0, t.len() as int)->0;
    lemma_plcp_gsa(t, sa, p, t.len() as int);
}

/// Writes, for each suffix of `t` in text order, the length of the longest prefix it shares
/// with the suffix before it in the suffix array `sa`.
///
/// Returns `0`, or `-1` where an argument does not fit.
pub fn libsais_plcp(t: &[u8], sa: &[SaSint], plcp: &mut [SaSint]) -> (r: SaSint)
    requires
        !(sa.len() != t.len() || old(plcp).len() != t.len()) && t.len() >= 2 ==> t.len() <= i32::MAX
            && (is_suffix_array(text8(t@), sa@) || plcp_values_plain(text8(t@), sa@, old(plcp)@) is Some),
    ensures
        r == (if sa.len() != t.len() || old(plcp).len() != t.len() { -1int } else { 0 }),
        r == -1 ==> final(plcp)@ == old(plcp)@,
        r == 0 && t.len() >= 2 ==> plcp_values_plain(text8(t@), sa@, old(plcp)@) == Some(final(plcp)@),
        r == 0 && is_suffix_array(text8(t@), sa@) ==> is_plcp(text8(t@), sa@, final(plcp)@),
        r == 0 && t.len() == 1 ==> final(plcp)@[0] == 0,
        final(plcp).len() == old(plcp).len(),
{
    if sa.len() != t.len() || plcp.len() != t.len() {
        return -1;
    }
    if t.len() <= 1 {
        if t.len() == 1 {
            plcp[0] = 0;
        }
        return 0;
    }
    let n: SaSint = t.len() as SaSint;
    proof {
        if is_suffix_array(text8(t@), sa@) {
            law_plcp_values_plain(text8(t@), sa@, plcp@);
        }
    }
    compute_phi_omp(sa, plcp, n, 1);
    compute_plcp_omp(t, plcp, n, 1);
    0
}

/// Writes, for each suffix of `t` in text order, the length of the longest prefix it shares
/// with the suffix before it in the suffix array `sa`.
///
/// Returns `0`, or `-1` where an argument does not fit. The result does not depend on
/// `threads`.
pub fn libsais_plcp_omp(t: &[u8], sa: &[SaSint], plcp: &mut [SaSint], threads: SaSint) -> (r: SaSint)
    requires
        !(threads < 0 || sa.len() != t.len() || old(plcp).len() != t.len()) && t.len() >= 2 ==> t.len() <= i32::MAX
            && (is_suffix_array(text8(t@), sa@) || plcp_values_plain(text8(t@), sa@, old(plcp)@) is Some),
    ensures
        r == (if threads < 0 || sa.len() != t.len() || old(plcp).len() != t.len() { -1int } else { 0 }),
        r == -1 ==> final(plcp)@ == old(plcp)@,
        r == 0 && t.len() >= 2 ==> plcp_values_plain(text8(t@), sa@, old(plcp)@) == Some(final(plcp)@),
        r == 0 && is_suffix_array(text8(t@), sa@) ==> is_plcp(text8(t@), sa@, final(plcp)@),
        r == 0 && t.len() == 1 ==> final(plcp)@[0] == 0,
        final(plcp).len() == old(plcp).len(),
{
    if threads < 0 {
        return -1;
    }
    if sa.len() != t.len() || plcp.len() != t.len() {
        return -1;
    }
    if t.len() <= 1 {
        if t.len() == 1 {
            plcp[0] = 0;
        }
        return 0;
    }
    let n: SaSint = t.len() as SaSint;
    proof {
        if is_suffix_array(text8(t@), sa@) {
            law_plcp_values_plain(text8(t@), sa@, plcp@);
        }
    }
    compute_phi_omp(sa, plcp, n, 1);
    compute_plcp_omp(t, plcp, n, 1);
    0
}

/// Writes, for each suffix of `t` in text order, the length of the longest prefix it shares
/// with the suffix before it in the suffix array `sa`.
///
/// Returns `0`, or `-1` where an argument does not fit.
pub fn libsais_plcp_int(t: &[SaSint], sa: &[SaSint], plcp: &mut [SaSint]) -> (r: SaSint)
    requires
        !(sa.len() != t.len() || old(plcp).len() != t.len()) && t.len() >= 2 ==> t.len() <= i32::MAX
            && (is_suffix_array(text32(t@), sa@) || plcp_values_plain(text32(t@), sa@, old(plcp)@) is Some),
    ensures
        r == (if sa.len() != t.len() || old(plcp).len() != t.len() { -1int } else { 0 }),
        r == -1 ==> final(plcp)@ == old(plcp)@,
        r == 0 && t.len() >= 2 ==> plcp_values_plain(text32(t@), sa@, old(plcp)@) == Some(final(plcp)@),
        r == 0 && is_suffix_array(text32(t@), sa@) ==> is_plcp(text32(t@), sa@, final(plcp)@),
        r == 0 && t.len() == 1 ==> final(plcp)@[0] == 0,
        final(plcp).len() == old(plcp).len(),
{
    if sa.len() != t.len() || plcp.len() != t.len() {
        return -1;
    }
    if t.len() <= 1 {
        if t.len() == 1 {
            plcp[0] = 0;
        }
        return 0;
    }
    let n: SaSint = t.len() as SaSint;
    proof {
        if is_suffix_array(text32(t@), sa@) {
            law_plcp_values_plain(text32(t@), sa@, plcp@);
        }
    }
    compute_phi_omp(sa, plcp, n, 1);
    compute_plcp_int_omp(t, plcp, n, 1);
    0
}

/// Writes, for each suffix of `t` in text order, the length of the longest prefix it shares
/// with the suffix before it in the suffix array `sa`.
///
/// Returns `0`, or `-1` where an argument does not fit. The result does not depend on
/// `threads`.
pub fn libsais_plcp_int_omp(t: &[SaSint], sa: &[SaSint], plcp: &mut [SaSint], threads: SaSint) -> (r: SaSint)
    requires
        !(threads < 0 || sa.len() != t.len() || old(plcp).len() != t.len()) && t.len() >= 2 ==> t.len() <= i32::MAX
            && (is_suffix_array(text32(t@), sa@) || plcp_values_plain(text32(t@), sa@, old(plcp)@) is Some),
    ensures
        r == (if threads < 0 || sa.len() != t.len() || old(plcp).len() != t.len() { -1int } else { 0 }),
        r == -1 ==> final(plcp)@ == old(plcp)@,
        r == 0 && t.len() >= 2 ==> plcp_values_plain(text32(t@), sa@, old(plcp)@) == Some(final(plcp)@),
        r == 0 && is_suffix_array(text32(t@), sa@) ==> is_plcp(text32(t@), sa@, final(plcp)@),
        r == 0 && t.len() == 1 ==> final(plcp)@[0] == 0,
        final(plcp).len() == old(plcp).len(),
{
    if threads < 0 {
        return -1;
    }
    if sa.len() != t.len() || plcp.len() != t.len() {
        return -1;
    }
    if t.len() <= 1 {
        if t.len() == 1 {
            plcp[0] = 0;
        }
        return 0;
    }
    let n: SaSint = t.len() as SaSint;
    proof {
        if is_suffix_array(text32(t@), sa@) {
            law_plcp_values_plain(text32(t@), sa@, plcp@);
        }
    }
    compute_phi_omp(sa, plcp, n, 1);
    compute_plcp_int_omp(t, plcp, n, 1);
    0
}

/// Writes, for each suffix of separated texts in text order, the length of the longest prefix
/// without a separator that it shares the suffix before it in the suffix array `sa`.
///
/// Returns `0`, or `-1` where an argument does not fit.
pub fn libsais_plcp_gsa(t: &[u8], sa: &[SaSint], plcp: &mut [SaSint]) -> (r: SaSint)
    requires
        !((t.len() > 0 && t@[t.len() - 1] != 0) || sa.len() != t.len() || old(plcp).len() != t.len()) && t.len() >= 2 ==> t.len() <= i32::MAX
            && (is_suffix_array(separated_text(t@), sa@) || plcp_values_gsa(t@, sa@, old(plcp)@) is Some),
    ensures
        r == (if (t.len() > 0 && t@[t.len() - 1] != 0) || sa.len() != t.len() || old(plcp).len() != t.len() { -1int } else { 0 }),
        r == -1 ==> final(plcp)@ == old(plcp)@,
        r == 0 && t.len() >= 2 ==> plcp_values_gsa(t@, sa@, old(plcp)@) == Some(final(plcp)@),
        r == 0 && is_suffix_array(separated_text(t@), sa@) ==> is_plcp(separated_text(t@), sa@, final(plcp)@),
        r == 0 && t.len() == 1 ==> final(plcp)@[0] == 0,
        final(plcp).len() == old(plcp).len(),
{
    if t.len() > 0 && t[t.len() - 1] != 0 {
        return -1;
    }
    if sa.len() != t.len() || plcp.len() != t.len() {
        return -1;
    }
    if t.len() <= 1 {
        if t.len() == 1 {
            plcp[0] = 0;
        }
        return 0;
    }
    let n: SaSint = t.len() as SaSint;
    proof {
        if is_suffix_array(separated_text(t@), sa@) {
            law_plcp_values_gsa(t@, sa@, plcp@);
        }
    }
    compute_phi_omp(sa, plcp, n, 1);
    compute_plcp_gsa_omp(t, plcp, n, 1);
    0
}

/// Writes, for each suffix of separated texts in text order, the length of the longest prefix
/// without a separator that it shares the suffix before it in the suffix array `sa`.
///
/// Returns `0`, or `-1` where an argument does not fit. The result does not depend on
/// `threads`.
pub fn libsais_plcp_gsa_omp(t: &[u8], sa: &[SaSint], plcp: &mut [SaSint], threads: SaSint) -> (r: SaSint)
    requires
        !(threads < 0 || (t.len() > 0 && t@[t.len() - 1] != 0) || sa.len() != t.len() || old(plcp).len() != t.len()) && t.len() >= 2 ==> t.len() <= i32::MAX
            && (is_suffix_array(separated_text(t@), sa@) || plcp_values_gsa(t@, sa@, old(plcp)@) is Some),
    ensures
        r == (if threads < 0 || (t.len() > 0 && t@[t.len() - 1] != 0) || sa.len() != t.len() || old(plcp).len() != t.len() { -1int } else { 0 }),
        r == -1 ==> final(plcp)@ == old(plcp)@,
        r == 0 && t.len() >= 2 ==> plcp_values_gsa(t@, sa@, old(plcp)@) == Some(final(plcp)@),
        r == 0 && is_suffix_array(separated_text(t@), sa@) ==> is_plcp(separated_text(t@), sa@, final(plcp)@),
        r == 0 && t.len() == 1 ==> final(plcp)@[0] == 0,
        final(plcp).len() == old(plcp).len(),
{
    if threads < 0 {
        return -1;
    }
    if t.len() > 0 && t[t.len() - 1] != 0 {
        return -1;
    }
    if sa.len() != t.len() || plcp.len() != t.len() {
        return -1;
    }
    if t.len() <= 1 {
        if t.len() == 1 {
            plcp[0] = 0;
        }
        return 0;
    }
    let n: SaSint = t.len() as SaSint;
    proof {
        if is_suffix_array(separated_text(t@), sa@) {
            law_plcp_values_gsa(t@, sa@, plcp@);
        }
    }
    compute_phi_omp(sa, plcp, n, 1);
    compute_plcp_gsa_omp(t, plcp, n, 1);
    0
}

/// Brings the lengths in `plcp` from text order to the order of the suffix array `sa`.
///
/// Returns `0`, or `-1` where an argument does not fit.
pub fn libsais_lcp(plcp: &[SaSint], sa: &[SaSint], lcp: &mut [SaSint]) -> (r: SaSint)
    requires
        !(plcp.len() != sa.len() || old(lcp).len() != sa.len()) ==> sa.len() <= i32::MAX && selects(plcp@, sa@, 0, sa.len() as int),
    ensures
        r == (if plcp.len() != sa.len() || old(lcp).len() != sa.len() { -1int } else { 0 }),
        r == -1 ==> final(lcp)@ == old(lcp)@,
        r == 0 ==> final(lcp)@ == reordered(plcp@, sa@, old(lcp)@, 0, sa.len() as int),
{
    if plcp.len() != sa.len() || lcp.len() != sa.len() {
        return -1;
    }
    compute_lcp_omp(plcp, sa, lcp, sa.len() as SaSint, 1);
    0
}

/// Brings the lengths in `plcp` from text order to the order of the suffix array `sa`. The
/// result does not depend on `threads`.
///
/// Returns `0`, or `-1` where an argument does not fit.
pub fn libsais_lcp_omp(plcp: &[SaSint], sa: &[SaSint], lcp: &mut [SaSint], threads: SaSint) -> (r: SaSint)
    requires
        !(threads < 0 || plcp.len() != sa.len() || old(lcp).len() != sa.len()) ==> sa.len() <= i32::MAX && selects(plcp@, sa@, 0, sa.len() as int),
    ensures
        r == (if threads < 0 || plcp.len() != sa.len() || old(lcp).len() != sa.len() { -1int } else { 0 }),
        r == -1 ==> final(lcp)@ == old(lcp)@,
        r == 0 ==> final(lcp)@ == reordered(plcp@, sa@, old(lcp)@, 0, sa.len() as int),
{
    if threads < 0 || plcp.len() != sa.len() || lcp.len() != sa.len() {
        return -1;
    }
    compute_lcp_omp(plcp, sa, lcp, sa.len() as SaSint, 1);
    0
}

/// The suffixes at `i` and `j` share the first `common_prefix` symbols, and no more.
pub proof fn law_common_prefix_longest(t: Seq<int>, i: int, j: int)
    requires
        0 <= i <= t.len(),
        0 <= j <= t.len(),
    ensures
        ({
            let l = common_prefix(t, i, j) as int;
            &&& i + l <= t.len()
            &&& j + l <= t.len()
            &&& forall|x: int| 0 <= x < l ==> #[trigger] t[i + x] == t[j + x]
            &&& i + l == t.len() || j + l == t.len() || t[i + l] != t[j + l]
        }),
    decreases t.len() - i,
{
    if i < t.len() && j < t.len() && t[i] == t[j] {
        law_common_prefix_longest(t, i + 1, j + 1);
        assert forall|x: int| 0 <= x < common_prefix(t, i, j) implies #[trigger] t[i + x] == t[j + x] by {
            if x > 0 {
                assert(t[(i + 1) + (x - 1)] == t[(j + 1) + (x - 1)]);
            }
        }
    }
}

/// In the order of the suffix array, the lengths are those shared by neighbours: the first
/// suffix has no neighbour before it, and each other one shares its length with the one before.
pub proof fn law_lcp_of_neighbours(t: Seq<int>, sa: Seq<i32>, plcp: Seq<i32>, lcp: Seq<i32>)
    requires
        is_suffix_array(t, sa),
        is_plcp(t, sa, plcp),
        lcp.len() == sa.len(),
    ensures
        selects(plcp, sa, 0, sa.len() as int),
        ({
            let after = reordered(plcp, sa, lcp, 0, sa.len() as int);
            &&& after.len() == sa.len()
            &&& sa.len() > 0 ==> after[0] == 0
            &&& forall|k: int| 0 < k < sa.len() ==> #[trigger] after[k] == common_prefix(t, sa[k - 1] as int, sa[k] as int)
        }),
{
    let after = reordered(plcp, sa, lcp, 0, sa.len() as int);
    assert forall|k: int| 0 < k < sa.len() implies #[trigger] after[k] == common_prefix(t, sa[k - 1] as int, sa[k] as int) by {
        assert(plcp[sa[k] as int] == shared_with_previous(t, sa, k));
    }
    if sa.len() > 0 {
        assert(plcp[sa[0] as int] == shared_with_previous(t, sa, 0));
    }
}

/// Noting the suffix before each suffix of the suffix array notes, for the first one, the length
/// of the text.
pub proof fn law_previous_noted(t: Seq<int>, sa: Seq<i32>, plcp: Seq<i32>, hi: int)
    requires
        is_suffix_array(t, sa),
        t.len() <= i32::MAX,
        t.len() <= plcp.len(),
        0 <= hi <= sa.len(),
    ensures
        phi_run(sa, t.len() as i32, plcp, 0, hi) is Some,
        phi_run(sa, t.len() as i32, plcp, 0, hi)->0.len() == plcp.len(),
        forall|k: int| 0 <= k < hi ==> phi_run(sa, t.len() as i32, plcp, 0, hi)->0[(#[trigger] sa[k]) as int]
            == suffix_at_rank_before(sa, k),
        forall|p: int| t.len() <= p < plcp.len() ==> #[trigger] phi_run(sa, t.len() as i32, plcp, 0, hi)->0[p] == plcp[p],
    decreases hi,
{
    if hi > 0 {
        law_previous_noted(t, sa, plcp, hi - 1);
        let x = phi_run(sa, t.len() as i32, plcp, 0, hi)->0;
        let y = phi_run(sa, t.len() as i32, plcp, 0, hi - 1)->0;
        assert(0 <= sa[hi - 1] < t.len());
        assert forall|k: int| 0 <= k < hi implies x[(#[trigger] sa[k]) as int] == suffix_at_rank_before(sa, k) by {
            if k < hi - 1 && sa[k] == sa[hi - 1] {
                lemma_suffix_array_distinct(t, sa, k, hi - 1);
            }
        }
    }
}

} // verus!
