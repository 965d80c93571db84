//! Adding up the counts of several workers.

use vstd::prelude::*;
use crate::types::{FastSint, SaSint};

verus! {

/// Whether the sums of the addends, and of all of them with `a`, are in range.
pub open spec fn sums_fit_2(a: i32, b: i32) -> bool {
    &&& i32::MIN <= a + (b) <= i32::MAX
}

/// Adds the counts of one further bucket to `bucket00`.
pub fn accumulate_counts_s32_2(
    bucket00: &mut [SaSint],
    bucket01: &[SaSint],
)
    requires
        bucket01.len() == old(bucket00).len(),
        forall|x: int| 0 <= x < old(bucket00).len() ==> sums_fit_2(#[trigger] old(bucket00)@[x], bucket01@[x]),
    ensures
        final(bucket00).len() == old(bucket00).len(),
        forall|x: int| 0 <= x < old(bucket00).len() ==> #[trigger] final(bucket00)@[x] == old(bucket00)@[x] + (bucket01@[x]),
{
    let len: usize = bucket00.len();
    let mut i: usize = 0;
    while i < len
        invariant
            i <= len == bucket00.len(),
            len == old(bucket00).len(),
            bucket01.len() == len,
            forall|x: int| 0 <= x < len ==> sums_fit_2(#[trigger] old(bucket00)@[x], bucket01@[x]),
            forall|x: int| 0 <= x < len ==> #[trigger] bucket00@[x] == (if x < i { old(bucket00)@[x] + (bucket01@[x]) } else { old(bucket00)@[x] as int }),
        decreases len - i,
    {
        assert(bucket00@[i as int] == old(bucket00)@[i as int]);
        bucket00[i] = bucket00[i] + (bucket01[i]);
        i += 1;
    }
}

/// Whether the sums of the addends, and of all of them with `a`, are in range.
pub open spec fn sums_fit_3(a: i32, b: i32, c: i32) -> bool {
    &&& i32::MIN <= b + c <= i32::MAX
    &&& i32::MIN <= a + (b + c) <= i32::MAX
}

/// Adds the counts of two further buckets to `bucket00`.
pub fn accumulate_counts_s32_3(
    bucket00: &mut [SaSint],
    bucket01: &[SaSint],
    bucket02: &[SaSint],
)
    requires
        bucket01.len() == old(bucket00).len(),
        bucket02.len() == old(bucket00).len(),
        forall|x: int| 0 <= x < old(bucket00).len() ==> sums_fit_3(#[trigger] old(bucket00)@[x], bucket01@[x], bucket02@[x]),
    ensures
        final(bucket00).len() == old(bucket00).len(),
        forall|x: int| 0 <= x < old(bucket00).len() ==> #[trigger] final(bucket00)@[x] == old(bucket00)@[x] + (bucket01@[x] + bucket02@[x]),
{
    let len: usize = bucket00.len();
    let mut i: usize = 0;
    while i < len
        invariant
            i <= len == bucket00.len(),
            len == old(bucket00).len(),
            bucket01.len() == len,
            bucket02.len() == len,
            forall|x: int| 0 <= x < len ==> sums_fit_3(#[trigger] old(bucket00)@[x], bucket01@[x], bucket02@[x]),
            forall|x: int| 0 <= x < len ==> #[trigger] bucket00@[x] == (if x < i { old(bucket00)@[x] + (bucket01@[x] + bucket02@[x]) } else { old(bucket00)@[x] as int }),
        decreases len - i,
    {
        assert(bucket00@[i as int] == old(bucket00)@[i as int]);
        bucket00[i] = bucket00[i] + (bucket01[i] + bucket02[i]);
        i += 1;
    }
}

/// Whether the sums of the addends, and of all of them with `a`, are in range.
pub open spec fn sums_fit_4(a: i32, b: i32, c: i32, d: i32) -> bool {
    &&& i32::MIN <= b + c <= i32::MAX
    &&& i32::MIN <= b + c + d <= i32::MAX
    &&& i32::MIN <= a + (b + c + d) <= i32::MAX
}

/// Adds the counts of three further buckets to `bucket00`.
pub fn accumulate_counts_s32_4(
    bucket00: &mut [SaSint],
    bucket01: &[SaSint],
    bucket02: &[SaSint],
    bucket03: &[SaSint],
)
    requires
        bucket01.len() == old(bucket00).len(),
        bucket02.len() == old(bucket00).len(),
        bucket03.len() == old(bucket00).len(),
        forall|x: int| 0 <= x < old(bucket00).len() ==> sums_fit_4(#[trigger] old(bucket00)@[x], bucket01@[x], bucket02@[x], bucket03@[x]),
    ensures
        final(bucket00).len() == old(bucket00).len(),
        forall|x: int| 0 <= x < old(bucket00).len() ==> #[trigger] final(bucket00)@[x] == old(bucket00)@[x] + (bucket01@[x] + bucket02@[x] + bucket03@[x]),
{
    let len: usize = bucket00.len();
    let mut i: usize = 0;
    while i < len
        invariant
            i <= len == bucket00.len(),
            len == old(bucket00).len(),
            bucket01.len() == len,
            bucket02.len() == len,
            bucket03.len() == len,
            forall|x: int| 0 <= x < len ==> sums_fit_4(#[trigger] old(bucket00)@[x], bucket01@[x], bucket02@[x], bucket03@[x]),
            forall|x: int| 0 <= x < len ==> #[trigger] bucket00@[x] == (if x < i { old(bucket00)@[x] + (bucket01@[x] + bucket02@[x] + bucket03@[x]) } else { old(bucket00)@[x] as int }),
        decreases len - i,
    {
        assert(bucket00@[i as int] == old(bucket00)@[i as int]);
        bucket00[i] = bucket00[i] + (bucket01[i] + bucket02[i] + bucket03[i]);
        i += 1;
    }
}

/// Whether the sums of the addends, and of all of them with `a`, are in range.
pub open spec fn sums_fit_5(a: i32, b: i32, c: i32, d: i32, e: i32) -> bool {
    &&& i32::MIN <= b + c <= i32::MAX
    &&& i32::MIN <= b + c + d <= i32::MAX
    &&& i32::MIN <= b + c + d + e <= i32::MAX
    &&& i32::MIN <= a + (b + c + d + e) <= i32::MAX
}

/// Adds the counts of four further buckets to `bucket00`.
pub fn accumulate_counts_s32_5(
    bucket00: &mut [SaSint],
    bucket01: &[SaSint],
    bucket02: &[SaSint],
    bucket03: &[SaSint],
    bucket04: &[SaSint],
)
    requires
        bucket01.len() == old(bucket00).len(),
        bucket02.len() == old(bucket00).len(),
        bucket03.len() == old(bucket00).len(),
        bucket04.len() == old(bucket00).len(),
        forall|x: int| 0 <= x < old(bucket00).len() ==> sums_fit_5(#[trigger] old(bucket00)@[x], bucket01@[x], bucket02@[x], bucket03@[x], bucket04@[x]),
    ensures
        final(bucket00).len() == old(bucket00).len(),
        forall|x: int| 0 <= x < old(bucket00).len() ==> #[trigger] final(bucket00)@[x] == old(bucket00)@[x] + (bucket01@[x] + bucket02@[x] + bucket03@[x] + bucket04@[x]),
{
    let len: usize = bucket00.len();
    let mut i: usize = 0;
    while i < len
        invariant
            i <= len == bucket00.len(),
            len == old(bucket00).len(),
            bucket01.len() == len,
            bucket02.len() == len,
            bucket03.len() == len,
            bucket04.len() == len,
            forall|x: int| 0 <= x < len ==> sums_fit_5(#[trigger] old(bucket00)@[x], bucket01@[x], bucket02@[x], bucket03@[x], bucket04@[x]),
            forall|x: int| 0 <= x < len ==> #[trigger] bucket00@[x] == (if x < i { old(bucket00)@[x] + (bucket01@[x] + bucket02@[x] + bucket03@[x] + bucket04@[x]) } else { old(bucket00)@[x] as int }),
        decreases len - i,
    {
        assert(bucket00@[i as int] == old(bucket00)@[i as int]);
        bucket00[i] = bucket00[i] + (bucket01[i] + bucket02[i] + bucket03[i] + bucket04[i]);
        i += 1;
    }
}

/// Whether the sums of the addends, and of all of them with `a`, are in range.
pub open spec fn sums_fit_6(a: i32, b: i32, c: i32, d: i32, e: i32, f: i32) -> bool {
    &&& i32::MIN <= b + c <= i32::MAX
    &&& i32::MIN <= b + c + d <= i32::MAX
    &&& i32::MIN <= b + c + d + e <= i32::MAX
    &&& i32::MIN <= b + c + d + e + f <= i32::MAX
    &&& i32::MIN <= a + (b + c + d + e + f) <= i32::MAX
}

/// Adds the counts of five further buckets to `bucket00`.
pub fn accumulate_counts_s32_6(
    bucket00: &mut [SaSint],
    bucket01: &[SaSint],
    bucket02: &[SaSint],
    bucket03: &[SaSint],
    bucket04: &[SaSint],
    bucket05: &[SaSint],
)
    requires
        bucket01.len() == old(bucket00).len(),
        bucket02.len() == old(bucket00).len(),
        bucket03.len() == old(bucket00).len(),
        bucket04.len() == old(bucket00).len(),
        bucket05.len() == old(bucket00).len(),
        forall|x: int| 0 <= x < old(bucket00).len() ==> sums_fit_6(#[trigger] old(bucket00)@[x], bucket01@[x], bucket02@[x], bucket03@[x], bucket04@[x], bucket05@[x]),
    ensures
        final(bucket00).len() == old(bucket00).len(),
        forall|x: int| 0 <= x < old(bucket00).len() ==> #[trigger] final(bucket00)@[x] == old(bucket00)@[x] + (bucket01@[x] + bucket02@[x] + bucket03@[x] + bucket04@[x] + bucket05@[x]),
{
    let len: usize = bucket00.len();
    let mut i: usize = 0;
    while i < len
        invariant
            i <= len == bucket00.len(),
            len == old(bucket00).len(),
            bucket01.len() == len,
            bucket02.len() == len,
            bucket03.len() == len,
            bucket04.len() == len,
            bucket05.len() == len,
            forall|x: int| 0 <= x < len ==> sums_fit_6(#[trigger] old(bucket00)@[x], bucket01@[x], bucket02@[x], bucket03@[x], bucket04@[x], bucket05@[x]),
            forall|x: int| 0 <= x < len ==> #[trigger] bucket00@[x] == (if x < i { old(bucket00)@[x] + (bucket01@[x] + bucket02@[x] + bucket03@[x] + bucket04@[x] + bucket05@[x]) } else { old(bucket00)@[x] as int }),
        decreases len - i,
    {
        assert(bucket00@[i as int] == old(bucket00)@[i as int]);
        bucket00[i] = bucket00[i] + (bucket01[i] + bucket02[i] + bucket03[i] + bucket04[i] + bucket05[i]);
        i += 1;
    }
}

/// Whether the sums of the addends, and of all of them with `a`, are in range.
pub open spec fn sums_fit_7(a: i32, b: i32, c: i32, d: i32, e: i32, f: i32, g: i32) -> bool {
    &&& i32::MIN <= b + c <= i32::MAX
    &&& i32::MIN <= b + c + d <= i32::MAX
    &&& i32::MIN <= b + c + d + e <= i32::MAX
    &&& i32::MIN <= b + c + d + e + f <= i32::MAX
    &&& i32::MIN <= b + c + d + e + f + g <= i32::MAX
    &&& i32::MIN <= a + (b + c + d + e + f + g) <= i32::MAX
}

/// Adds the counts of six further buckets to `bucket00`.
pub fn accumulate_counts_s32_7(
    bucket00: &mut [SaSint],
    bucket01: &[SaSint],
    bucket02: &[SaSint],
    bucket03: &[SaSint],
    bucket04: &[SaSint],
    bucket05: &[SaSint],
    bucket06: &[SaSint],
)
    requires
        bucket01.len() == old(bucket00).len(),
        bucket02.len() == old(bucket00).len(),
        bucket03.len() == old(bucket00).len(),
        bucket04.len() == old(bucket00).len(),
        bucket05.len() == old(bucket00).len(),
        bucket06.len() == old(bucket00).len(),
        forall|x: int| 0 <= x < old(bucket00).len() ==> sums_fit_7(#[trigger] old(bucket00)@[x], bucket01@[x], bucket02@[x], bucket03@[x], bucket04@[x], bucket05@[x], bucket06@[x]),
    ensures
        final(bucket00).len() == old(bucket00).len(),
        forall|x: int| 0 <= x < old(bucket00).len() ==> #[trigger] final(bucket00)@[x] == old(bucket00)@[x] + (bucket01@[x] + bucket02@[x] + bucket03@[x] + bucket04@[x] + bucket05@[x] + bucket06@[x]),
{
    let len: usize = bucket00.len();
    let mut i: usize = 0;
    while i < len
        invariant
            i <= len == bucket00.len(),
            len == old(bucket00).len(),
            bucket01.len() == len,
            bucket02.len() == len,
            bucket03.len() == len,
            bucket04.len() == len,
            bucket05.len() == len,
            bucket06.len() == len,
            forall|x: int| 0 <= x < len ==> sums_fit_7(#[trigger] old(bucket00)@[x], bucket01@[x], bucket02@[x], bucket03@[x], bucket04@[x], bucket05@[x], bucket06@[x]),
            forall|x: int| 0 <= x < len ==> #[trigger] bucket00@[x] == (if x < i { old(bucket00)@[x] + (bucket01@[x] + bucket02@[x] + bucket03@[x] + bucket04@[x] + bucket05@[x] + bucket06@[x]) } else { old(bucket00)@[x] as int }),
        decreases len - i,
    {
        assert(bucket00@[i as int] == old(bucket00)@[i as int]);
        bucket00[i] = bucket00[i] + (bucket01[i] + bucket02[i] + bucket03[i] + bucket04[i] + bucket05[i] + bucket06[i]);
        i += 1;
    }
}

/// Whether the sums of the addends, and of all of them with `a`, are in range.
pub open spec fn sums_fit_8(a: i32, b: i32, c: i32, d: i32, e: i32, f: i32, g: i32, h: i32) -> bool {
    &&& i32::MIN <= b + c <= i32::MAX
    &&& i32::MIN <= b + c + d <= i32::MAX
    &&& i32::MIN <= b + c + d + e <= i32::MAX
    &&& i32::MIN <= b + c + d + e + f <= i32::MAX
    &&& i32::MIN <= b + c + d + e + f + g <= i32::MAX
    &&& i32::MIN <= b + c + d + e + f + g + h <= i32::MAX
    &&& i32::MIN <= a + (b + c + d + e + f + g + h) <= i32::MAX
}

/// Adds the counts of seven further buckets to `bucket00`.
pub fn accumulate_counts_s32_8(
    bucket00: &mut [SaSint],
    bucket01: &[SaSint],
    bucket02: &[SaSint],
    bucket03: &[SaSint],
    bucket04: &[SaSint],
    bucket05: &[SaSint],
    bucket06: &[SaSint],
    bucket07: &[SaSint],
)
    requires
        bucket01.len() == old(bucket00).len(),
        bucket02.len() == old(bucket00).len(),
        bucket03.len() == old(bucket00).len(),
        bucket04.len() == old(bucket00).len(),
        bucket05.len() == old(bucket00).len(),
        bucket06.len() == old(bucket00).len(),
        bucket07.len() == old(bucket00).len(),
        forall|x: int| 0 <= x < old(bucket00).len() ==> sums_fit_8(#[trigger] old(bucket00)@[x], bucket01@[x], bucket02@[x], bucket03@[x], bucket04@[x], bucket05@[x], bucket06@[x], bucket07@[x]),
    ensures
        final(bucket00).len() == old(bucket00).len(),
        forall|x: int| 0 <= x < old(bucket00).len() ==> #[trigger] final(bucket00)@[x] == old(bucket00)@[x] + (bucket01@[x] + bucket02@[x] + bucket03@[x] + bucket04@[x] + bucket05@[x] + bucket06@[x] + bucket07@[x]),
{
    let len: usize = bucket00.len();
    let mut i: usize = 0;
    while i < len
        invariant
            i <= len == bucket00.len(),
            len == old(bucket00).len(),
            bucket01.len() == len,
            bucket02.len() == len,
            bucket03.len() == len,
            bucket04.len() == len,
            bucket05.len() == len,
            bucket06.len() == len,
            bucket07.len() == len,
            forall|x: int| 0 <= x < len ==> sums_fit_8(#[trigger] old(bucket00)@[x], bucket01@[x], bucket02@[x], bucket03@[x], bucket04@[x], bucket05@[x], bucket06@[x], bucket07@[x]),
            forall|x: int| 0 <= x < len ==> #[trigger] bucket00@[x] == (if x < i { old(bucket00)@[x] + (bucket01@[x] + bucket02@[x] + bucket03@[x] + bucket04@[x] + bucket05@[x] + bucket06@[x] + bucket07@[x]) } else { old(bucket00)@[x] as int }),
        decreases len - i,
    {
        assert(bucket00@[i as int] == old(bucket00)@[i as int]);
        bucket00[i] = bucket00[i] + (bucket01[i] + bucket02[i] + bucket03[i] + bucket04[i] + bucket05[i] + bucket06[i] + bucket07[i]);
        i += 1;
    }
}

/// Whether the sums of the addends, and of all of them with `a`, are in range.
pub open spec fn sums_fit_9(a: i32, b: i32, c: i32, d: i32, e: i32, f: i32, g: i32, h: i32, i: i32) -> bool {
    &&& i32::MIN <= b + c <= i32::MAX
    &&& i32::MIN <= b + c + d <= i32::MAX
    &&& i32::MIN <= b + c + d + e <= i32::MAX
    &&& i32::MIN <= b + c + d + e + f <= i32::MAX
    &&& i32::MIN <= b + c + d + e + f + g <= i32::MAX
    &&& i32::MIN <= b + c + d + e + f + g + h <= i32::MAX
    &&& i32::MIN <= b + c + d + e + f + g + h + i <= i32::MAX
    &&& i32::MIN <= a + (b + c + d + e + f + g + h + i) <= i32::MAX
}

/// Adds the counts of eight further buckets to `bucket00`.
pub fn accumulate_counts_s32_9(
    bucket00: &mut [SaSint],
    bucket01: &[SaSint],
    bucket02: &[SaSint],
    bucket03: &[SaSint],
    bucket04: &[SaSint],
    bucket05: &[SaSint],
    bucket06: &[SaSint],
    bucket07: &[SaSint],
    bucket08: &[SaSint],
)
    requires
        bucket01.len() == old(bucket00).len(),
        bucket02.len() == old(bucket00).len(),
        bucket03.len() == old(bucket00).len(),
        bucket04.len() == old(bucket00).len(),
        bucket05.len() == old(bucket00).len(),
        bucket06.len() == old(bucket00).len(),
        bucket07.len() == old(bucket00).len(),
        bucket08.len() == old(bucket00).len(),
        forall|x: int| 0 <= x < old(bucket00).len() ==> sums_fit_9(#[trigger] old(bucket00)@[x], bucket01@[x], bucket02@[x], bucket03@[x], bucket04@[x], bucket05@[x], bucket06@[x], bucket07@[x], bucket08@[x]),
    ensures
        final(bucket00).len() == old(bucket00).len(),
        forall|x: int| 0 <= x < old(bucket00).len() ==> #[trigger] final(bucket00)@[x] == old(bucket00)@[x] + (bucket01@[x] + bucket02@[x] + bucket03@[x] + bucket04@[x] + bucket05@[x] + bucket06@[x] + bucket07@[x] + bucket08@[x]),
{
    let len: usize = bucket00.len();
    let mut i: usize = 0;
    while i < len
        invariant
            i <= len == bucket00.len(),
            len == old(bucket00).len(),
            bucket01.len() == len,
            bucket02.len() == len,
            bucket03.len() == len,
            bucket04.len() == len,
            bucket05.len() == len,
            bucket06.len() == len,
            bucket07.len() == len,
            bucket08.len() == len,
            forall|x: int| 0 <= x < len ==> sums_fit_9(#[trigger] old(bucket00)@[x], bucket01@[x], bucket02@[x], bucket03@[x], bucket04@[x], bucket05@[x], bucket06@[x], bucket07@[x], bucket08@[x]),
            forall|x: int| 0 <= x < len ==> #[trigger] bucket00@[x] == (if x < i { old(bucket00)@[x] + (bucket01@[x] + bucket02@[x] + bucket03@[x] + bucket04@[x] + bucket05@[x] + bucket06@[x] + bucket07@[x] + bucket08@[x]) } else { old(bucket00)@[x] as int }),
        decreases len - i,
    {
        assert(bucket00@[i as int] == old(bucket00)@[i as int]);
        bucket00[i] = bucket00[i] + (bucket01[i] + bucket02[i] + bucket03[i] + bucket04[i] + bucket05[i] + bucket06[i] + bucket07[i] + bucket08[i]);
        i += 1;
    }
}

/// The sum of the slots `x`, `x - stride`, .., of the first `count` of them.
pub open spec fn strided_sum(b: Seq<i32>, x: int, stride: int, count: int) -> int
    decreases count,
{
    if count <= 0 {
        0
    } else {
        strided_sum(b, x, stride, count - 1) + b[x - (count - 1) * stride]
    }
}

/// Whether the sums of up to `count` slots are in range.
pub open spec fn strided_fits(b: Seq<i32>, start: int, size: int, stride: int, count: int) -> bool {
    forall|x: int, k: int| start <= x < start + size && 0 <= k <= count ==> i32::MIN <= #[trigger] strided_sum(b, x, stride, k) <= i32::MAX
}

/// `b` with the bucket at `start` replaced by the sum of `count` buckets from it downward.
pub open spec fn accumulated_at(b: Seq<i32>, start: int, size: int, stride: int, count: int) -> Seq<i32> {
    Seq::new(b.len(), |x: int| if start <= x < start + size { strided_sum(b, x, stride, count) as i32 } else { b[x] })
}

/// Adds up `count` buckets from `start` downward, into the first of them.
fn accumulate_counts_at(buckets: &mut [SaSint], start: usize, size: usize, stride: usize, count: usize)
    requires
        2 <= count <= 9,
        start >= (count - 1) * stride,
        start + size <= old(buckets).len(),
        strided_fits(old(buckets)@, start as int, size as int, stride as int, count as int),
    ensures
        final(buckets)@ == accumulated_at(old(buckets)@, start as int, size as int, stride as int, count as int),
{
    let mut sums: Vec<SaSint> = vec![0; size];
    let ghost b = buckets@;
    let mut k: usize = 0;
    while k < count
        invariant
            k <= count,
            count >= 2,
            b == buckets@,
            start >= (count - 1) * stride,
            start + size <= buckets.len(),
            sums.len() == size,
            strided_fits(b, start as int, size as int, stride as int, count as int),
            forall|x: int| 0 <= x < size ==> #[trigger] sums@[x] == strided_sum(b, start + x, stride as int, k as int),
        decreases count - k,
    {
        assert(k * stride <= (count - 1) * stride) by (nonlinear_arith)
            requires
                k <= count - 1,
                0 <= stride,
        ;
        let from: usize = start - k * stride;
        let mut x: usize = 0;
        while x < size
            invariant
                x <= size == sums.len(),
                k < count,
                b == buckets@,
                from == start - k * stride,
                start + size <= buckets.len(),
                strided_fits(b, start as int, size as int, stride as int, count as int),
                forall|y: int| 0 <= y < size ==> #[trigger] sums@[y] == strided_sum(b, start + y, stride as int, if y < x { k + 1 } else { k as int }),
            decreases size - x,
        {
            proof {
                assert(strided_sum(b, start + x, stride as int, k + 1) == strided_sum(b, start + x, stride as int, k as int) + b[from + x]);
                assert(i32::MIN <= strided_sum(b, start + x, stride as int, k + 1) <= i32::MAX);
                assert(sums@[x as int] == strided_sum(b, start + x, stride as int, k as int));
            }
            sums[x] = sums[x] + buckets[from + x];
            x += 1;
        }
        k += 1;
    }
    let mut x: usize = 0;
    while x < size
        invariant
            x <= size == sums.len(),
            start + size <= buckets.len(),
            buckets.len() == b.len(),
            forall|y: int| 0 <= y < size ==> #[trigger] sums@[y] == strided_sum(b, start + y, stride as int, count as int),
            forall|y: int| 0 <= y < b.len() ==> #[trigger] buckets@[y]
                == (if start <= y < start + x { strided_sum(b, y, stride as int, count as int) } else { b[y] as int }),
        decreases size - x,
    {
        assert(sums@[x as int] == strided_sum(b, start + x, stride as int, count as int));
        buckets[start + x] = sums[x];
        x += 1;
    }
    assert(buckets@ =~= accumulated_at(b, start as int, size as int, stride as int, count as int));
}

/// Where the buckets that are added up next end, when `num` buckets are left below `top`.
pub open spec fn next_start(top: int, stride: int, num: int) -> int {
    if num >= 9 {
        top - (num - 9) * stride
    } else {
        top
    }
}

/// How many buckets are added up next, when `num` are left.
pub open spec fn next_count(num: int) -> int {
    if num >= 9 {
        9
    } else {
        num
    }
}

/// `b` with `num` buckets below `top` added up, up to nine at a time from the lowest on; the
/// last sum stands at `top`.
pub open spec fn accumulated(b: Seq<i32>, top: int, size: int, stride: int, num: int) -> Seq<i32>
    decreases num,
{
    if num <= 1 {
        b
    } else if num < 9 {
        accumulated_at(b, next_start(top, stride, num), size, stride, next_count(num))
    } else {
        accumulated(accumulated_at(b, next_start(top, stride, num), size, stride, next_count(num)), top, size, stride, num - 8)
    }
}

/// Whether all sums on the way are in range.
pub open spec fn accumulation_fits(b: Seq<i32>, top: int, size: int, stride: int, num: int) -> bool
    decreases num,
{
    if num <= 1 {
        true
    } else {
        &&& strided_fits(b, next_start(top, stride, num), size, stride, next_count(num))
        &&& num >= 9 ==> accumulation_fits(accumulated_at(b, next_start(top, stride, num), size, stride, next_count(num)), top, size, stride, num - 8)
    }
}

/// Adds up `num_buckets` buckets of `bucket_size` slots that start `bucket_stride` slots
/// apart, into the last of them.
pub fn accumulate_counts_s32(buckets: &mut [SaSint], bucket_size: FastSint, bucket_stride: FastSint, num_buckets: FastSint)
    requires
        num_buckets > 1 ==> 0 <= bucket_size && 0 <= bucket_stride && bucket_size + (num_buckets - 1) * bucket_stride <= old(buckets).len(),
        accumulation_fits(old(buckets)@, (num_buckets - 1) * bucket_stride, bucket_size as int, bucket_stride as int, num_buckets as int),
    ensures
        final(buckets)@ == accumulated(old(buckets)@, (num_buckets - 1) * bucket_stride, bucket_size as int, bucket_stride as int, num_buckets as int),
{
    if num_buckets <= 1 {
        return;
    }
    let size: usize = bucket_size as usize;
    let stride: usize = bucket_stride as usize;
    assert(0 <= (num_buckets - 1) * stride) by (nonlinear_arith)
        requires
            num_buckets > 1,
            0 <= stride,
    ;
    let top: usize = (num_buckets - 1) as usize * stride;
    let mut num: usize = num_buckets as usize;
    let ghost done = accumulated(buckets@, top as int, size as int, stride as int, num as int);
    while num >= 9
        invariant
            1 <= num <= num_buckets,
            top == (num_buckets - 1) * stride,
            top + size <= buckets.len(),
            buckets.len() == old(buckets).len(),
            accumulation_fits(buckets@, top as int, size as int, stride as int, num as int),
            done == accumulated(buckets@, top as int, size as int, stride as int, num as int),
        decreases num,
    {
        assert(0 <= (num - 9) * stride && (num - 9) * stride + 8 * stride <= top) by (nonlinear_arith)
            requires
                9 <= num <= num_buckets,
                0 <= stride,
                top == (num_buckets - 1) * stride,
        ;
        let start: usize = top - (num - 9) * stride;
        accumulate_counts_at(buckets, start, size, stride, 9);
        num = num - 8;
    }
    if num >= 2 {
        assert((num - 1) * stride <= top) by (nonlinear_arith)
            requires
                2 <= num <= num_buckets,
                0 <= stride,
                top == (num_buckets - 1) * stride,
        ;
        accumulate_counts_at(buckets, top, size, stride, num);
    }
}

/// Adding up the first `num` buckets again, a part of them at a time, is adding them up.
proof fn lemma_strided_sum_split(b: Seq<i32>, x: int, stride: int, k: int, num: int)
    requires
        0 <= k <= num,
    ensures
        strided_sum(b, x, stride, num) == strided_sum(b, x, stride, k) + strided_sum(b, x - k * stride, stride, num - k),
    decreases num - k,
{
    if k < num {
        lemma_strided_sum_split(b, x, stride, k, num - 1);
        assert(x - k * stride - (num - 1 - k) * stride == x - (num - 1) * stride) by (nonlinear_arith);
    }
}

/// Sums over slots that two sequences share are the same.
proof fn lemma_strided_sum_same(b: Seq<i32>, c: Seq<i32>, x: int, stride: int, num: int)
    requires
        forall|k: int| 0 <= k < num ==> #[trigger] b[x - k * stride] == c[x - k * stride],
    ensures
        strided_sum(b, x, stride, num) == strided_sum(c, x, stride, num),
    decreases num,
{
    if num > 0 {
        lemma_strided_sum_same(b, c, x, stride, num - 1);
        assert(b[x - (num - 1) * stride] == c[x - (num - 1) * stride]);
    }
}

/// The last bucket is left with the sum of all buckets, where the buckets do not overlap.
pub proof fn law_accumulated_total(b: Seq<i32>, top: int, size: int, stride: int, num: int, x: int)
    requires
        0 <= size <= stride,
        1 <= num,
        (num - 1) * stride <= top,
        top + size <= b.len(),
        top <= x < top + size,
        accumulation_fits(b, top, size, stride, num),
    ensures
        accumulated(b, top, size, stride, num)[x] == strided_sum(b, x, stride, num),
    decreases num,
{
    if num == 1 {
        assert(strided_sum(b, x, stride, 0) == 0);
    } else {
        let start = next_start(top, stride, num);
        let count = next_count(num);
        let c = accumulated_at(b, start, size, stride, count);
        if num >= 9 {
            let left = num - 8;
            assert(left >= 1 && (left - 1) * stride <= top && (left - 1) * stride == (num - 9) * stride && 0 <= (num - 9) * stride) by (nonlinear_arith)
                requires
                    left == num - 8,
                    num >= 9,
                    (num - 1) * stride <= top,
                    0 <= stride,
            ;
            law_accumulated_total(c, top, size, stride, left, x);
            let y = x - (num - 9) * stride;
            lemma_strided_sum_split(c, x, stride, left - 1, left);
            lemma_strided_sum_split(b, x, stride, num - 9, num);
            assert forall|k: int| 0 <= k < left - 1 implies #[trigger] c[x - k * stride] == b[x - k * stride] by {
                assert(k * stride + stride <= (num - 9) * stride) by (nonlinear_arith)
                    requires
                        k + 1 <= num - 9,
                        0 <= stride,
                ;
            }
            lemma_strided_sum_same(c, b, x, stride, left - 1);
            assert(strided_sum(c, y, stride, 1) == c[y]) by {
                assert(strided_sum(c, y, stride, 0) == 0);
                assert(0 * stride == 0);
            }
            assert(i32::MIN <= strided_sum(b, y, stride, 9) <= i32::MAX);
        } else {
            assert(i32::MIN <= strided_sum(b, x, stride, num) <= i32::MAX);
        }
    }
}

} // verus!
