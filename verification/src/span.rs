//! Copies within one array.

use vstd::prelude::*;
use crate::types::SaSint;

verus! {

/// `s` with `len` entries from `src` copied to `dst`, as they stood before.
pub open spec fn moved(s: Seq<i32>, src: int, len: int, dst: int) -> Seq<i32> {
    Seq::new(s.len(), |i: int| if dst <= i < dst + len { s[src + (i - dst)] } else { s[i] })
}

/// Whether both ranges of a copy exist.
pub open spec fn movable(total: int, src: int, len: int, dst: int) -> bool {
    0 <= src && 0 <= len && 0 <= dst && src + len <= total && dst + len <= total
}

/// Copies `len` entries from `src` to `dst`; the ranges may overlap.
pub(crate) fn move_within(s: &mut [SaSint], src: usize, len: usize, dst: usize)
    requires
        movable(old(s).len() as int, src as int, len as int, dst as int),
    ensures
        final(s)@ == moved(old(s)@, src as int, len as int, dst as int),
{
    if dst <= src {
        let mut i: usize = 0;
        while i < len
            invariant
                i <= len,
                dst <= src,
                movable(s.len() as int, src as int, len as int, dst as int),
                s.len() == old(s).len(),
                forall|x: int| dst <= x < dst + i ==> s@[x] == old(s)@[src + (x - dst)],
                forall|x: int| 0 <= x < s.len() && !(dst <= x < dst + i) ==> s@[x] == old(s)@[x],
            decreases len - i,
        {
            s[dst + i] = s[src + i];
            i += 1;
        }
    } else {
        let mut i: usize = len;
        while i > 0
            invariant
                i <= len,
                src < dst,
                movable(s.len() as int, src as int, len as int, dst as int),
                s.len() == old(s).len(),
                forall|x: int| dst + i <= x < dst + len ==> s@[x] == old(s)@[src + (x - dst)],
                forall|x: int| 0 <= x < s.len() && !(dst + i <= x < dst + len) ==> s@[x] == old(s)@[x],
            decreases i,
        {
            i -= 1;
            s[dst + i] = s[src + i];
        }
    }
    assert(s@ =~= moved(old(s)@, src as int, len as int, dst as int));
}

} // verus!
