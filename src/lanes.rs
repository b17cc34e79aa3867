//! The lane cascade: how a dot product of arbitrary length is split into
//! fixed-width vector lanes, and the exact sums computed over those lanes.
use vstd::prelude::*;

verus! {

/// The widest vector lane count that the cascade tries first.
pub const MAX_LANES: usize = 64;

/// Sum of a sequence of chunk widths.
pub open spec fn total(ws: Seq<usize>) -> nat
    decreases ws.len(),
{
    if ws.len() == 0 {
        0
    } else {
        total(ws.drop_last()) + ws.last() as nat
    }
}

/// One pass of the cascade over `rem` remaining elements, trying widths
/// `w`, `w / 2`, ... down to 2, then taking a lone last element as a scalar.
pub open spec fn pass(rem: nat, w: usize) -> Seq<usize>
    decreases w,
{
    if w <= 1 {
        if rem == 1 {
            seq![1usize]
        } else {
            seq![]
        }
    } else if rem >= w {
        seq![w].add(pass((rem - w) as nat, w / 2))
    } else {
        pass(rem, w / 2)
    }
}

/// The full cascade: passes starting from the widest lane are repeated until
/// nothing remains. The guard never fails (see `lemma_pass_progress`).
pub open spec fn cascade(rem: nat) -> Seq<usize>
    decreases rem,
{
    let p = pass(rem, MAX_LANES);
    if rem > 0 && 0 < total(p) && total(p) <= rem {
        p.add(cascade((rem - total(p)) as nat))
    } else {
        seq![]
    }
}

/// A vector lane count the cascade uses, or 1 for the scalar remainder.
pub open spec fn is_lane_width(w: usize) -> bool {
    w == 64 || w == 32 || w == 16 || w == 8 || w == 4 || w == 2 || w == 1
}

pub proof fn lemma_total_concat(a: Seq<usize>, b: Seq<usize>)
    ensures
        total(a.add(b)) == total(a) + total(b),
    decreases b.len(),
{
    if b.len() == 0 {
        assert(a.add(b) =~= a);
    } else {
        lemma_total_concat(a, b.drop_last());
        assert(a.add(b).drop_last() =~= a.add(b.drop_last()));
    }
}

proof fn lemma_total_single(w: usize)
    ensures
        total(seq![w]) == w,
{
    assert(seq![w].drop_last() =~= Seq::<usize>::empty());
    assert(total(Seq::<usize>::empty()) == 0);
}

proof fn lemma_pass_progress(rem: nat, w: usize)
    requires
        is_lane_width(w),
        rem >= 1,
        rem < 2 * w || w == MAX_LANES,
    ensures
        0 < total(pass(rem, w)) <= rem,
    decreases w,
{
    lemma_pass_bounded(rem, w);
    if w <= 1 {
        lemma_total_single(1);
    } else if rem >= w {
        lemma_total_concat(seq![w], pass((rem - w) as nat, w / 2));
        lemma_total_single(w);
    } else {
        lemma_pass_progress(rem, w / 2);
    }
}

proof fn lemma_pass_bounded(rem: nat, w: usize)
    requires
        is_lane_width(w),
    ensures
        total(pass(rem, w)) <= rem,
        forall|i: int| 0 <= i < pass(rem, w).len() ==> is_lane_width(#[trigger] pass(rem, w)[i]),
    decreases w,
{
    if w <= 1 {
        lemma_total_single(1);
    } else if rem >= w {
        lemma_pass_bounded((rem - w) as nat, w / 2);
        lemma_total_concat(seq![w], pass((rem - w) as nat, w / 2));
        lemma_total_single(w);
    } else {
        lemma_pass_bounded(rem, w / 2);
    }
}

/// Every chunk of the cascade is a lane width, and a single-element chunk
/// comes only last.
pub proof fn lemma_cascade_widths(n: nat)
    ensures
        forall|i: int| 0 <= i < cascade(n).len() ==> is_lane_width(#[trigger] cascade(n)[i]),
        forall|i: int| 0 <= i < cascade(n).len() - 1 ==> #[trigger] cascade(n)[i] != 1,
    decreases n,
{
    if n > 0 {
        let p = pass(n, MAX_LANES);
        let rest = (n - total(p)) as nat;
        lemma_pass_progress(n, MAX_LANES);
        lemma_pass_bounded(n, MAX_LANES);
        lemma_pass_single_last(n, MAX_LANES);
        lemma_cascade_widths(rest);
        if p.len() > 0 && p.last() == 1 {
            lemma_pass_ends_empty(n, MAX_LANES);
            assert(cascade(rest).len() == 0);
        }
        assert(cascade(n) == p.add(cascade(rest)));
    }
}

/// Within a pass, a single-element chunk comes only last.
proof fn lemma_pass_single_last(rem: nat, w: usize)
    requires
        is_lane_width(w),
    ensures
        forall|i: int| 0 <= i < pass(rem, w).len() - 1 ==> #[trigger] pass(rem, w)[i] != 1,
    decreases w,
{
    if w > 1 {
        if rem >= w {
            let q = pass((rem - w) as nat, w / 2);
            lemma_pass_single_last((rem - w) as nat, w / 2);
            assert(pass(rem, w) == seq![w].add(q));
            assert forall|i: int| 0 <= i < pass(rem, w).len() - 1 implies #[trigger] pass(
                rem,
                w,
            )[i] != 1 by {
                if i > 0 {
                    assert(pass(rem, w)[i] == q[i - 1]);
                } else {
                    assert(pass(rem, w)[0] == w);
                }
            }
        } else {
            lemma_pass_single_last(rem, w / 2);
            assert(pass(rem, w) == pass(rem, w / 2));
        }
    } else {
        assert(pass(rem, w).len() <= 1);
    }
}

/// A pass that ends on a single element consumes everything.
proof fn lemma_pass_ends_empty(rem: nat, w: usize)
    requires
        is_lane_width(w),
        pass(rem, w).len() > 0,
        pass(rem, w).last() == 1,
    ensures
        total(pass(rem, w)) == rem,
    decreases w,
{
    if w <= 1 {
        lemma_total_single(1);
    } else if rem >= w {
        let q = pass((rem - w) as nat, w / 2);
        assert(seq![w].add(q).last() == q.last() || q.len() == 0);
        if q.len() > 0 {
            assert(seq![w].add(q).last() == q.last());
            lemma_pass_ends_empty((rem - w) as nat, w / 2);
        }
        lemma_total_concat(seq![w], q);
        lemma_total_single(w);
    } else {
        lemma_pass_ends_empty(rem, w / 2);
    }
}

/// Splits a dot product of length `len` into the chunks that the lane
/// cascade processes, in order.
pub fn lane_plan(len: usize) -> (plan: Vec<usize>)
    ensures
        plan@ == cascade(len as nat),
        total(plan@) == len,
        forall|i: int| 0 <= i < plan@.len() ==> is_lane_width(#[trigger] plan@[i]),
        forall|i: int| 0 <= i < plan@.len() - 1 ==> #[trigger] plan@[i] != 1,
{
    let mut plan: Vec<usize> = Vec::new();
    let mut rem: usize = len;
    while rem > 0
        invariant
            total(plan@) + rem == len,
            cascade(len as nat) == plan@.add(cascade(rem as nat)),
        decreases rem,
    {
        let ghost start = rem as nat;
        let ghost before = plan@;
        let mut w: usize = MAX_LANES;
        while w > 1
            invariant
                is_lane_width(w),
                w > 1 ==> w >= 2,
                rem <= start,
                total(plan@) + rem == len,
                before.add(pass(start, MAX_LANES)) == plan@.add(pass(rem as nat, w)),
            decreases w,
        {
            if rem >= w {
                let ghost prev = plan@;
                plan.push(w);
                assert(prev.add(pass(rem as nat, w)) =~= plan@.add(pass((rem - w) as nat, w / 2)));
                assert(plan@.drop_last() =~= prev);
                rem = rem - w;
            } else {
                assert(pass(rem as nat, w) == pass(rem as nat, w / 2));
            }
            w = w / 2;
        }
        if rem == 1 {
            let ghost prev = plan@;
            plan.push(1);
            assert(plan@.drop_last() =~= prev);
            assert(prev.add(pass(1, w)) =~= plan@);
            rem = 0;
        } else {
            assert(plan@.add(pass(rem as nat, w)) =~= plan@);
        }
        proof {
            let p = pass(start, MAX_LANES);
            lemma_total_concat(before, p);
            lemma_pass_progress(start, MAX_LANES);
            assert(cascade(start) == p.add(cascade(rem as nat)));
            assert(cascade(len as nat) =~= plan@.add(cascade(rem as nat)));
        }
    }
    assert(plan@.add(cascade(0)) =~= plan@);
    proof {
        lemma_cascade_widths(len as nat);
    }
    plan
}

/// The largest magnitude of a product of two `i32` values.
pub open spec fn max_product() -> int {
    0x4000_0000_0000_0000
}

/// Left-to-right sum of the elementwise products of `a` and `b`.
pub open spec fn dot(a: Seq<i32>, b: Seq<i32>) -> int
    decreases a.len(),
{
    if a.len() == 0 || b.len() == 0 {
        0
    } else {
        dot(a.drop_last(), b.drop_last()) + a.last() as int * b.last() as int
    }
}

/// Sum over the chunks `ws` (taken one after another from the front) of the
/// dot product within each chunk.
pub open spec fn chunked_dot(a: Seq<i32>, b: Seq<i32>, ws: Seq<usize>) -> int
    decreases ws.len(),
{
    if ws.len() == 0 {
        0
    } else {
        let t = total(ws.drop_last()) as int;
        let w = ws.last() as int;
        chunked_dot(a, b, ws.drop_last()) + dot(a.subrange(t, t + w), b.subrange(t, t + w))
    }
}

/// What the lane-cascade dot product sums: each lane chunk reduced on its
/// own, the chunk sums added in cascade order.
pub open spec fn lane_dot(a: Seq<i32>, b: Seq<i32>) -> int {
    chunked_dot(a, b, cascade(a.len()))
}

pub proof fn lemma_cascade_total(n: nat)
    ensures
        total(cascade(n)) == n,
    decreases n,
{
    if n > 0 {
        let p = pass(n, MAX_LANES);
        lemma_pass_progress(n, MAX_LANES);
        lemma_cascade_total((n - total(p)) as nat);
        lemma_total_concat(p, cascade((n - total(p)) as nat));
    }
}

proof fn lemma_total_prefix(ws: Seq<usize>, i: int)
    requires
        0 <= i < ws.len(),
    ensures
        total(ws.take(i + 1)) == total(ws.take(i)) + ws[i],
        total(ws.take(i + 1)) <= total(ws),
{
    assert(ws.take(i + 1).drop_last() =~= ws.take(i));
    lemma_total_concat(ws.take(i + 1), ws.skip(i + 1));
    assert(ws.take(i + 1).add(ws.skip(i + 1)) =~= ws);
}

pub proof fn lemma_product_bound(x: i32, y: i32)
    ensures
        -max_product() <= x as int * y as int <= max_product(),
{
    assert(-max_product() <= x as int * y as int <= max_product()) by (nonlinear_arith)
        requires
            -0x8000_0000 <= x <= 0x7fff_ffff,
            -0x8000_0000 <= y <= 0x7fff_ffff,
    ;
}

pub proof fn lemma_dot_bound(a: Seq<i32>, b: Seq<i32>)
    requires
        a.len() == b.len(),
    ensures
        -(a.len() * max_product()) <= dot(a, b) <= a.len() * max_product(),
    decreases a.len(),
{
    if a.len() > 0 {
        lemma_dot_bound(a.drop_last(), b.drop_last());
        lemma_product_bound(a.last(), b.last());
        assert((a.len() - 1) * max_product() + max_product() == a.len() * max_product())
            by (nonlinear_arith);
    }
}

/// The dot product of a prefix splits at any point into the dot product of
/// the shorter prefix plus that of the slice in between.
pub proof fn lemma_dot_split(a: Seq<i32>, b: Seq<i32>, t: int, m: int)
    requires
        a.len() == b.len(),
        0 <= t,
        0 <= m,
        t + m <= a.len(),
    ensures
        dot(a.take(t + m), b.take(t + m)) == dot(a.take(t), b.take(t)) + dot(
            a.subrange(t, t + m),
            b.subrange(t, t + m),
        ),
    decreases m,
{
    if m == 0 {
        assert(a.subrange(t, t).len() == 0);
    } else {
        lemma_dot_split(a, b, t, m - 1);
        assert(a.take(t + m).drop_last() =~= a.take(t + m - 1));
        assert(b.take(t + m).drop_last() =~= b.take(t + m - 1));
        assert(a.subrange(t, t + m).drop_last() =~= a.subrange(t, t + m - 1));
        assert(b.subrange(t, t + m).drop_last() =~= b.subrange(t, t + m - 1));
    }
}

/// Summing chunk by chunk gives the plain dot product of the covered prefix.
pub proof fn lemma_chunked_dot(a: Seq<i32>, b: Seq<i32>, ws: Seq<usize>)
    requires
        a.len() == b.len(),
        total(ws) <= a.len(),
    ensures
        chunked_dot(a, b, ws) == dot(a.take(total(ws) as int), b.take(total(ws) as int)),
    decreases ws.len(),
{
    if ws.len() == 0 {
        assert(a.take(0).len() == 0);
    } else {
        let t = total(ws.drop_last()) as int;
        lemma_chunked_dot(a, b, ws.drop_last());
        lemma_dot_split(a, b, t, ws.last() as int);
    }
}

/// With exact arithmetic the lane cascade changes nothing: its chunked sum
/// equals the left-to-right dot product.
pub proof fn lemma_lane_dot_is_dot(a: Seq<i32>, b: Seq<i32>)
    requires
        a.len() == b.len(),
    ensures
        lane_dot(a, b) == dot(a, b),
{
    lemma_cascade_total(a.len());
    lemma_chunked_dot(a, b, cascade(a.len()));
    assert(a.take(a.len() as int) =~= a);
    assert(b.take(b.len() as int) =~= b);
}

/// Reduces one lane chunk: the dot product of `vector1[off..off + w]` and
/// `vector2[off..off + w]`.
fn lane_sum(vector1: &[i32], vector2: &[i32], off: usize, w: usize) -> (r: i128)
    requires
        vector1@.len() == vector2@.len(),
        off + w <= vector1@.len(),
    ensures
        r == dot(
            vector1@.subrange(off as int, off + w),
            vector2@.subrange(off as int, off + w),
        ),
{
    let n = vector1.len();
    let mut acc: i128 = 0;
    let mut j: usize = 0;
    while j < w
        invariant
            j <= w,
            n == vector1@.len(),
            off + w <= vector1@.len(),
            vector1@.len() == vector2@.len(),
            acc == dot(
                vector1@.subrange(off as int, off + j),
                vector2@.subrange(off as int, off + j),
            ),
        decreases w - j,
    {
        let ghost a = vector1@.subrange(off as int, off + j + 1);
        let ghost b = vector2@.subrange(off as int, off + j + 1);
        proof {
            assert(a.drop_last() =~= vector1@.subrange(off as int, off + j));
            assert(b.drop_last() =~= vector2@.subrange(off as int, off + j));
            lemma_dot_bound(a, b);
            lemma_product_bound(vector1@[off + j], vector2@[off + j]);
            assert((j + 1) * max_product() <= vector1@.len() * max_product()) by (nonlinear_arith)
                requires
                    j + 1 <= vector1@.len(),
            ;
        }
        acc = acc + (vector1[off + j] as i128) * (vector2[off + j] as i128);
        j = j + 1;
    }
    acc
}

/// Dot product of two equal-length sequences by the lane cascade: chunks of
/// 64, 32, 16, 8, 4 and 2 lanes, each multiplied elementwise and reduced into
/// the running sum, and a lone last element multiplied as a scalar.
pub fn execute_mult_sum_simd(vector1: &[i32], vector2: &[i32]) -> (r: i128)
    requires
        vector1@.len() == vector2@.len(),
    ensures
        r == lane_dot(vector1@, vector2@),
{
    let plan = lane_plan(vector1.len());
    let ghost a = vector1@;
    let ghost b = vector2@;
    let mut sum: i128 = 0;
    let mut off: usize = 0;
    let mut i: usize = 0;
    while i < plan.len()
        invariant
            a == vector1@,
            b == vector2@,
            a.len() == b.len(),
            a.len() <= usize::MAX,
            plan@ == cascade(a.len()),
            total(plan@) == a.len(),
            i <= plan@.len(),
            off == total(plan@.take(i as int)),
            sum == chunked_dot(a, b, plan@.take(i as int)),
        decreases plan@.len() - i,
    {
        let w = plan[i];
        proof {
            lemma_total_prefix(plan@, i as int);
            let next = plan@.take(i + 1);
            assert(next.drop_last() =~= plan@.take(i as int));
            lemma_chunked_dot(a, b, next);
            lemma_dot_bound(a.take(off + w), b.take(off + w));
            assert((off + w) * max_product() <= a.len() * max_product()) by (nonlinear_arith)
                requires
                    off + w <= a.len(),
            ;
        }
        let chunk = lane_sum(vector1, vector2, off, w);
        sum = sum + chunk;
        off = off + w;
        i = i + 1;
    }
    assert(plan@.take(plan@.len() as int) =~= plan@);
    sum
}

/// Elementwise products of two equal-length sequences, produced chunk by
/// chunk over the same lane cascade as `execute_mult_sum_simd`.
pub fn execute_mult_simd(vector1: &[i32], vector2: &[i32]) -> (r: Vec<i64>)
    requires
        vector1@.len() == vector2@.len(),
    ensures
        r@.len() == vector1@.len(),
        forall|k: int|
            0 <= k < r@.len() ==> #[trigger] r@[k] == vector1@[k] as int * vector2@[k] as int,
{
    let n = vector1.len();
    let plan = lane_plan(n);
    let mut out: Vec<i64> = Vec::with_capacity(n);
    let mut off: usize = 0;
    let mut i: usize = 0;
    while i < plan.len()
        invariant
            n == vector1@.len(),
            n == vector2@.len(),
            total(plan@) == n,
            i <= plan@.len(),
            off == total(plan@.take(i as int)),
            out@.len() == off,
            forall|k: int|
                0 <= k < off ==> #[trigger] out@[k] == vector1@[k] as int * vector2@[k] as int,
        decreases plan@.len() - i,
    {
        let w = plan[i];
        proof {
            lemma_total_prefix(plan@, i as int);
        }
        let mut j: usize = 0;
        while j < w
            invariant
                n == vector1@.len(),
                n == vector2@.len(),
                j <= w,
                off + w <= n,
                out@.len() == off + j,
                forall|k: int|
                    0 <= k < off + j ==> #[trigger] out@[k] == vector1@[k] as int
                        * vector2@[k] as int,
            decreases w - j,
        {
            proof {
                lemma_product_bound(vector1@[off + j], vector2@[off + j]);
            }
            out.push((vector1[off + j] as i64) * (vector2[off + j] as i64));
            j = j + 1;
        }
        off = off + w;
        i = i + 1;
    }
    proof {
        assert(plan@.take(plan@.len() as int) =~= plan@);
    }
    out
}

} // verus!
