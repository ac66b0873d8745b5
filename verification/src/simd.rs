//! Vectorized predicate evaluation over in-memory buffers of 32-bit integers.
//!
//! A kernel evaluates one relational predicate `value <op> threshold` over a
//! buffer and returns the matching positions in ascending order. The
//! lane-structured kernels process the buffer in fixed-width groups, deriving
//! a per-lane bit mask exactly as a vector unit does — `Ne`, `Le` and `Ge` by
//! negating the complementary comparison's mask, since there is no native
//! "not greater" compare — and fall back to direct scalar comparison for the
//! remainder. Every kernel returns results identical to the purely scalar
//! evaluation; that identity is the engine's core correctness property.
use vstd::prelude::*;

verus! {

/// The six relational operators a kernel can evaluate.
#[derive(Clone, Copy, Debug, PartialEq, Eq, Structural)]
pub enum SimdOp {
    Ne,
    Eq,
    Lt,
    Gt,
    Le,
    Ge,
}

/// The two ways two predicate results can be combined.
#[derive(Clone, Copy, Debug, PartialEq, Eq, Structural)]
pub enum LogicalOp {
    And,
    Or,
}

/// The lane width a kernel runs at: four lanes under a 128-bit vector unit,
/// eight under a 256-bit one. Both produce identical results; the choice is
/// made once, from the running machine's capability.
#[derive(Clone, Copy, Debug, PartialEq, Eq, Structural)]
pub enum LaneWidth {
    Narrow,
    Wide,
}

/// What it means for one value to satisfy a relational predicate.
pub open spec fn op_matches(op: SimdOp, v: i32, t: i32) -> bool {
    match op {
        SimdOp::Eq => v == t,
        SimdOp::Ne => v != t,
        SimdOp::Lt => v < t,
        SimdOp::Gt => v > t,
        SimdOp::Le => v <= t,
        SimdOp::Ge => v >= t,
    }
}

/// The positions in `buf` whose values satisfy the predicate, ascending.
pub open spec fn matching_indices(buf: Seq<i32>, t: i32, op: SimdOp) -> Seq<usize>
    decreases buf.len(),
{
    if buf.len() == 0 {
        seq![]
    } else {
        let pre = matching_indices(buf.drop_last(), t, op);
        if op_matches(op, buf.last(), t) {
            pre.push((buf.len() - 1) as usize)
        } else {
            pre
        }
    }
}

/// What `matching_indices` holds: exactly the matching positions, in
/// strictly ascending order.
pub proof fn lemma_matching_indices_elems(buf: Seq<i32>, t: i32, op: SimdOp)
    requires
        buf.len() <= usize::MAX,
    ensures
        forall|n: int|
            0 <= n < matching_indices(buf, t, op).len() ==> (#[trigger] matching_indices(
                buf,
                t,
                op,
            )[n] as int) < buf.len() && op_matches(op, buf[matching_indices(buf, t, op)[n] as int], t),
        forall|j: int|
            0 <= j < buf.len() ==> (op_matches(op, buf[j], t) <==> matching_indices(
                buf,
                t,
                op,
            ).contains(j as usize)),
        forall|n1: int, n2: int|
            0 <= n1 < n2 < matching_indices(buf, t, op).len() ==> matching_indices(buf, t, op)[n1]
                < matching_indices(buf, t, op)[n2],
    decreases buf.len(),
{
    if buf.len() > 0 {
        lemma_matching_indices_elems(buf.drop_last(), t, op);
        let pre = matching_indices(buf.drop_last(), t, op);
        let whole = matching_indices(buf, t, op);
        assert forall|j: int|
            0 <= j < buf.len() implies (op_matches(op, buf[j], t) <==> whole.contains(
            j as usize,
        )) by {
            if j < buf.len() - 1 {
                assert(buf.drop_last()[j] == buf[j]);
                if op_matches(op, buf[j], t) {
                    let n = choose|n: int| 0 <= n < pre.len() && (#[trigger] pre[n]) == j as usize;
                    assert(whole[n] == j as usize);
                } else {
                    if whole.contains(j as usize) {
                        let n = choose|n: int| 0 <= n < whole.len() && (#[trigger] whole[n]) == j as usize;
                        assert(n < pre.len() ==> pre.contains(j as usize));
                    }
                }
            } else {
                if op_matches(op, buf[j], t) {
                    assert(whole[whole.len() - 1] == j as usize);
                } else {
                    if whole.contains(j as usize) {
                        let n = choose|n: int| 0 <= n < whole.len() && (#[trigger] whole[n]) == j as usize;
                        assert(pre.contains(j as usize));
                    }
                }
            }
        }
    }
}

/// Scalar evaluation of one predicate on one value.
fn scalar_match(v: i32, t: i32, op: SimdOp) -> (r: bool)
    ensures
        r == op_matches(op, v, t),
{
    match op {
        SimdOp::Eq => v == t,
        SimdOp::Ne => v != t,
        SimdOp::Lt => v < t,
        SimdOp::Gt => v > t,
        SimdOp::Le => v <= t,
        SimdOp::Ge => v >= t,
    }
}

/// Processing one more element extends the matching positions of the prefix
/// by that element's position exactly when it matches.
proof fn lemma_matching_step(buf: Seq<i32>, t: i32, op: SimdOp, j: int)
    requires
        0 <= j < buf.len(),
        buf.len() <= usize::MAX,
    ensures
        matching_indices(buf.take(j + 1), t, op) == (if op_matches(op, buf[j], t) {
            matching_indices(buf.take(j), t, op).push(j as usize)
        } else {
            matching_indices(buf.take(j), t, op)
        }),
{
    assert(buf.take(j + 1).drop_last() =~= buf.take(j));
    assert(buf.take(j + 1).last() == buf[j]);
}

/// Packs four predicate outcomes into the low bits of a movemask-style
/// bitfield, lane 0 in bit 0.
fn mask_from(b0: bool, b1: bool, b2: bool, b3: bool) -> (m: u8)
    ensures
        (m & 1 != 0) == b0,
        (m & 2 != 0) == b1,
        (m & 4 != 0) == b2,
        (m & 8 != 0) == b3,
{
    let x0: u8 = if b0 {
        1
    } else {
        0
    };
    let x1: u8 = if b1 {
        2
    } else {
        0
    };
    let x2: u8 = if b2 {
        4
    } else {
        0
    };
    let x3: u8 = if b3 {
        8
    } else {
        0
    };
    let m: u8 = x0 | x1 | x2 | x3;
    proof {
        assert((m & 1 != 0) == (x0 == 1) && (m & 2 != 0) == (x1 == 2) && (m & 4 != 0) == (x2 == 4)
            && (m & 8 != 0) == (x3 == 8)) by (bit_vector)
            requires
                m == x0 | x1 | x2 | x3,
                x0 == 0 || x0 == 1,
                x1 == 0 || x1 == 2,
                x2 == 0 || x2 == 4,
                x3 == 0 || x3 == 8,
        ;
    }
    m
}

/// Negates the low four lanes of a mask, as a vector unit derives "not
/// greater" by comparing a compare result against an all-zero vector.
fn negate_mask(m: u8) -> (r: u8)
    ensures
        (r & 1 != 0) == !(m & 1 != 0),
        (r & 2 != 0) == !(m & 2 != 0),
        (r & 4 != 0) == !(m & 4 != 0),
        (r & 8 != 0) == !(m & 8 != 0),
{
    let r: u8 = (!m) & 0xF;
    proof {
        assert((r & 1 != 0) == !(m & 1 != 0) && (r & 2 != 0) == !(m & 2 != 0) && (r & 4 != 0) == !(
        m & 4 != 0) && (r & 8 != 0) == !(m & 8 != 0)) by (bit_vector)
            requires
                r == (!m) & 0xF,
        ;
    }
    r
}

/// Evaluates one predicate over one four-lane group and returns the lane
/// mask. `Ne`, `Le` and `Ge` are derived by negating the complementary
/// comparison's mask.
fn lane_mask(c0: i32, c1: i32, c2: i32, c3: i32, t: i32, op: SimdOp) -> (m: u8)
    ensures
        (m & 1 != 0) == op_matches(op, c0, t),
        (m & 2 != 0) == op_matches(op, c1, t),
        (m & 4 != 0) == op_matches(op, c2, t),
        (m & 8 != 0) == op_matches(op, c3, t),
{
    match op {
        SimdOp::Eq => mask_from(c0 == t, c1 == t, c2 == t, c3 == t),
        SimdOp::Ne => negate_mask(mask_from(c0 == t, c1 == t, c2 == t, c3 == t)),
        SimdOp::Lt => mask_from(c0 < t, c1 < t, c2 < t, c3 < t),
        SimdOp::Gt => mask_from(c0 > t, c1 > t, c2 > t, c3 > t),
        SimdOp::Le => negate_mask(mask_from(c0 > t, c1 > t, c2 > t, c3 > t)),
        SimdOp::Ge => negate_mask(mask_from(c0 < t, c1 < t, c2 < t, c3 < t)),
    }
}

/// Purely scalar predicate evaluation: the reference the lane-structured
/// kernels are held to.
pub fn filter_scalar_32(buffer: &[i32], threshold_value: i32, op: SimdOp) -> (r: Vec<usize>)
    ensures
        r@ == matching_indices(buffer@, threshold_value, op),
{
    let len: usize = buffer.len();
    let mut results: Vec<usize> = Vec::new();
    let mut i: usize = 0;
    proof {
        assert(buffer@.take(0) =~= Seq::<i32>::empty());
    }
    while i < len
        invariant
            i <= len,
            len == buffer@.len(),
            results@ == matching_indices(buffer@.take(i as int), threshold_value, op),
        decreases len - i,
    {
        proof {
            lemma_matching_step(buffer@, threshold_value, op, i as int);
        }
        if scalar_match(buffer[i], threshold_value, op) {
            results.push(i);
        }
        i = i + 1;
    }
    proof {
        assert(buffer@.take(len as int) =~= buffer@);
    }
    results
}

/// Four-lane kernel: full lane groups go through `lane_mask`, the remainder
/// through direct scalar comparison.
pub fn filter_simd_32(buffer: &[i32], threshold_value: i32, op: SimdOp) -> (r: Vec<usize>)
    ensures
        r@ == matching_indices(buffer@, threshold_value, op),
{
    let len: usize = buffer.len();
    let mut results: Vec<usize> = Vec::new();
    let mut i: usize = 0;
    proof {
        assert(buffer@.take(0) =~= Seq::<i32>::empty());
    }
    while len - i >= 4
        invariant
            i <= len,
            len == buffer@.len(),
            results@ == matching_indices(buffer@.take(i as int), threshold_value, op),
        decreases len - i,
    {
        let m: u8 = lane_mask(
            buffer[i],
            buffer[i + 1],
            buffer[i + 2],
            buffer[i + 3],
            threshold_value,
            op,
        );
        proof {
            lemma_matching_step(buffer@, threshold_value, op, i as int);
        }
        if m & 1 != 0 {
            results.push(i);
        }
        proof {
            lemma_matching_step(buffer@, threshold_value, op, i + 1);
        }
        if m & 2 != 0 {
            results.push(i + 1);
        }
        proof {
            lemma_matching_step(buffer@, threshold_value, op, i + 2);
        }
        if m & 4 != 0 {
            results.push(i + 2);
        }
        proof {
            lemma_matching_step(buffer@, threshold_value, op, i + 3);
        }
        if m & 8 != 0 {
            results.push(i + 3);
        }
        i = i + 4;
    }
    while i < len
        invariant
            i <= len,
            len == buffer@.len(),
            results@ == matching_indices(buffer@.take(i as int), threshold_value, op),
        decreases len - i,
    {
        proof {
            lemma_matching_step(buffer@, threshold_value, op, i as int);
        }
        if scalar_match(buffer[i], threshold_value, op) {
            results.push(i);
        }
        i = i + 1;
    }
    proof {
        assert(buffer@.take(len as int) =~= buffer@);
    }
    results
}

/// Eight-lane kernel: two four-lane masks per group, remainder scalar.
/// Interchangeable with the four-lane kernel — the results are identical.
pub fn filter_simd_32_wide(buffer: &[i32], threshold_value: i32, op: SimdOp) -> (r: Vec<usize>)
    ensures
        r@ == matching_indices(buffer@, threshold_value, op),
{
    let len: usize = buffer.len();
    let mut results: Vec<usize> = Vec::new();
    let mut i: usize = 0;
    proof {
        assert(buffer@.take(0) =~= Seq::<i32>::empty());
    }
    while len - i >= 8
        invariant
            i <= len,
            len == buffer@.len(),
            results@ == matching_indices(buffer@.take(i as int), threshold_value, op),
        decreases len - i,
    {
        let lo: u8 = lane_mask(
            buffer[i],
            buffer[i + 1],
            buffer[i + 2],
            buffer[i + 3],
            threshold_value,
            op,
        );
        let hi: u8 = lane_mask(
            buffer[i + 4],
            buffer[i + 5],
            buffer[i + 6],
            buffer[i + 7],
            threshold_value,
            op,
        );
        proof {
            lemma_matching_step(buffer@, threshold_value, op, i as int);
        }
        if lo & 1 != 0 {
            results.push(i);
        }
        proof {
            lemma_matching_step(buffer@, threshold_value, op, i + 1);
        }
        if lo & 2 != 0 {
            results.push(i + 1);
        }
        proof {
            lemma_matching_step(buffer@, threshold_value, op, i + 2);
        }
        if lo & 4 != 0 {
            results.push(i + 2);
        }
        proof {
            lemma_matching_step(buffer@, threshold_value, op, i + 3);
        }
        if lo & 8 != 0 {
            results.push(i + 3);
        }
        proof {
            lemma_matching_step(buffer@, threshold_value, op, i + 4);
        }
        if hi & 1 != 0 {
            results.push(i + 4);
        }
        proof {
            lemma_matching_step(buffer@, threshold_value, op, i + 5);
        }
        if hi & 2 != 0 {
            results.push(i + 5);
        }
        proof {
            lemma_matching_step(buffer@, threshold_value, op, i + 6);
        }
        if hi & 4 != 0 {
            results.push(i + 6);
        }
        proof {
            lemma_matching_step(buffer@, threshold_value, op, i + 7);
        }
        if hi & 8 != 0 {
            results.push(i + 7);
        }
        i = i + 8;
    }
    while i < len
        invariant
            i <= len,
            len == buffer@.len(),
            results@ == matching_indices(buffer@.take(i as int), threshold_value, op),
        decreases len - i,
    {
        proof {
            lemma_matching_step(buffer@, threshold_value, op, i as int);
        }
        if scalar_match(buffer[i], threshold_value, op) {
            results.push(i);
        }
        i = i + 1;
    }
    proof {
        assert(buffer@.take(len as int) =~= buffer@);
    }
    results
}

/// Routes a kernel call through the lane width chosen at startup. Both
/// implementations meet the same contract, so the choice never changes the
/// result — only throughput.
pub fn filter_simd_dispatch(buffer: &[i32], threshold_value: i32, op: SimdOp, width: LaneWidth) -> (r:
    Vec<usize>)
    ensures
        r@ == matching_indices(buffer@, threshold_value, op),
{
    match width {
        LaneWidth::Narrow => filter_simd_32(buffer, threshold_value, op),
        LaneWidth::Wide => filter_simd_32_wide(buffer, threshold_value, op),
    }
}

/// Kernel/scalar equivalence: any output meeting a lane-structured kernel's
/// contract equals any output meeting the scalar kernel's contract, for every
/// buffer and every operator — as a sequence, hence also as a set.
pub proof fn lemma_kernel_scalar_equivalence(
    buf: Seq<i32>,
    t: i32,
    op: SimdOp,
    vector_out: Seq<usize>,
    scalar_out: Seq<usize>,
)
    requires
        vector_out == matching_indices(buf, t, op),
        scalar_out == matching_indices(buf, t, op),
    ensures
        vector_out == scalar_out,
        vector_out.to_set() == scalar_out.to_set(),
{
}

/// Does `s` hold `x`?
fn slice_contains(s: &[usize], x: usize) -> (r: bool)
    ensures
        r == s@.contains(x),
{
    let len: usize = s.len();
    let mut i: usize = 0;
    while i < len
        invariant
            i <= len,
            len == s@.len(),
            forall|k: int| 0 <= k < i as int ==> s@[k] != x,
        decreases len - i,
    {
        if s[i] == x {
            return true;
        }
        i = i + 1;
    }
    false
}

/// Does `v` hold `x`?
fn vec_contains(v: &Vec<usize>, x: usize) -> (r: bool)
    ensures
        r == v@.contains(x),
{
    slice_contains(v.as_slice(), x)
}

/// Extending a prefix by one element extends exactly its membership.
proof fn lemma_take_step_contains(s: Seq<usize>, i: int, y: usize)
    requires
        0 <= i < s.len(),
    ensures
        s.take(i + 1).contains(y) <==> (s.take(i).contains(y) || s[i] == y),
{
    assert(s.take(i + 1)[i] == s[i]);
    if s.take(i + 1).contains(y) {
        let k = choose|k: int| 0 <= k < i + 1 && (#[trigger] s.take(i + 1)[k]) == y;
        if k < i {
            assert(s.take(i)[k] == y);
        }
    }
    if s.take(i).contains(y) {
        let k = choose|k: int| 0 <= k < i && (#[trigger] s.take(i)[k]) == y;
        assert(s.take(i + 1)[k] == y);
    }
}

/// Appends `x` to `out` unless it is already there, keeping `out`
/// duplicate-free and adding exactly `x` to its membership.
fn push_unique(out: &mut Vec<usize>, x: usize)
    requires
        old(out)@.no_duplicates(),
    ensures
        final(out)@.no_duplicates(),
        forall|y: usize| final(out)@.contains(y) <==> (old(out)@.contains(y) || y == x),
{
    if !vec_contains(out, x) {
        let ghost prev = out@;
        out.push(x);
        proof {
            lemma_push_effect(prev, x);
        }
    }
}

/// Combines two sets of matching positions with a logical operator: the
/// intersection under `And`, the union under `Or`. The result is a set —
/// no position appears twice, and callers must not rely on its order.
pub fn combine_masks(mask1: &[usize], mask2: &[usize], op: LogicalOp) -> (r: Vec<usize>)
    ensures
        r@.to_set() == (match op {
            LogicalOp::And => mask1@.to_set().intersect(mask2@.to_set()),
            LogicalOp::Or => mask1@.to_set().union(mask2@.to_set()),
        }),
        r@.no_duplicates(),
{
    let mut out: Vec<usize> = Vec::new();
    let len1: usize = mask1.len();
    let mut i: usize = 0;
    match op {
        LogicalOp::And => {
            while i < len1
                invariant
                    i <= len1,
                    len1 == mask1@.len(),
                    out@.no_duplicates(),
                    forall|y: usize|
                        out@.contains(y) <==> (mask1@.take(i as int).contains(y)
                            && mask2@.contains(y)),
                decreases len1 - i,
            {
                let x: usize = mask1[i];
                let ghost prev = out@;
                if slice_contains(mask2, x) {
                    push_unique(&mut out, x);
                }
                proof {
                    assert forall|y: usize|
                        out@.contains(y) <==> (mask1@.take(i + 1).contains(y) && mask2@.contains(
                            y,
                        )) by {
                        lemma_take_step_contains(mask1@, i as int, y);
                    }
                }
                i = i + 1;
            }
            proof {
                assert(mask1@.take(len1 as int) =~= mask1@);
                assert(out@.to_set() =~= mask1@.to_set().intersect(mask2@.to_set()));
            }
        },
        LogicalOp::Or => {
            while i < len1
                invariant
                    i <= len1,
                    len1 == mask1@.len(),
                    out@.no_duplicates(),
                    forall|y: usize| out@.contains(y) <==> mask1@.take(i as int).contains(y),
                decreases len1 - i,
            {
                let x: usize = mask1[i];
                push_unique(&mut out, x);
                proof {
                    assert forall|y: usize|
                        out@.contains(y) <==> mask1@.take(i + 1).contains(y) by {
                        lemma_take_step_contains(mask1@, i as int, y);
                    }
                }
                i = i + 1;
            }
            proof {
                assert(mask1@.take(len1 as int) =~= mask1@);
            }
            let len2: usize = mask2.len();
            let mut j: usize = 0;
            while j < len2
                invariant
                    j <= len2,
                    len2 == mask2@.len(),
                    out@.no_duplicates(),
                    forall|y: usize|
                        out@.contains(y) <==> (mask1@.contains(y) || mask2@.take(
                            j as int,
                        ).contains(y)),
                decreases len2 - j,
            {
                let x: usize = mask2[j];
                push_unique(&mut out, x);
                proof {
                    assert forall|y: usize|
                        out@.contains(y) <==> (mask1@.contains(y) || mask2@.take(j + 1).contains(
                            y,
                        )) by {
                        lemma_take_step_contains(mask2@, j as int, y);
                    }
                }
                j = j + 1;
            }
            proof {
                assert(mask2@.take(len2 as int) =~= mask2@);
                assert(out@.to_set() =~= mask1@.to_set().union(mask2@.to_set()));
            }
        },
    }
    out
}


/// Pushing a fresh element extends exactly the membership and keeps the
/// sequence duplicate-free.
proof fn lemma_push_effect(s: Seq<usize>, x: usize)
    requires
        s.no_duplicates(),
        !s.contains(x),
    ensures
        s.push(x).no_duplicates(),
        forall|y: usize| s.push(x).contains(y) <==> (s.contains(y) || y == x),
{
    assert forall|y: usize| s.push(x).contains(y) <==> (s.contains(y) || y == x) by {
        if s.push(x).contains(y) && y != x {
            let k = choose|k: int| 0 <= k < s.push(x).len() && (#[trigger] s.push(x)[k]) == y;
            assert(s[k] == y);
        }
        if s.contains(y) {
            let k = choose|k: int| 0 <= k < s.len() && (#[trigger] s[k]) == y;
            assert(s.push(x)[k] == y);
        }
        assert(s.push(x)[s.len() as int] == x);
    }
}

/// Runs the single-predicate kernel independently on each buffer, then
/// combines the two position sets with the logical operator: the result set
/// is the intersection under `And` and the union under `Or` of the two
/// independently computed position sets.
pub fn filter_with_logical_op(
    buf1: &[i32],
    op1: SimdOp,
    val1: i32,
    buf2: &[i32],
    op2: SimdOp,
    val2: i32,
    logic_op: LogicalOp,
) -> (r: Vec<usize>)
    ensures
        r@.to_set() == (match logic_op {
            LogicalOp::And => matching_indices(buf1@, val1, op1).to_set().intersect(
                matching_indices(buf2@, val2, op2).to_set(),
            ),
            LogicalOp::Or => matching_indices(buf1@, val1, op1).to_set().union(
                matching_indices(buf2@, val2, op2).to_set(),
            ),
        }),
        r@.no_duplicates(),
{
    let mask1: Vec<usize> = filter_simd_32(buf1, val1, op1);
    let mask2: Vec<usize> = filter_simd_32(buf2, val2, op2);
    combine_masks(mask1.as_slice(), mask2.as_slice(), logic_op)
}

} // verus!
