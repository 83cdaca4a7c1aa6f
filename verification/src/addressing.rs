//! Capacity arithmetic: the pure functions that relate a segment number to its
//! size and cumulative offset, and that map a global element index to its
//! (segment, slot) location. Every other part of the crate routes addressing
//! through these functions.

use vstd::prelude::*;

verus! {

use vstd::arithmetic::power2::{
    pow2,
    lemma_pow2_adds,
    lemma_pow2_pos,
    lemma_pow2_strictly_increases,
    lemma2_to64,
};
use vstd::arithmetic::mul::lemma_mul_inequality;
use vstd::bits::{lemma_u64_shl_is_mul, lemma_u64_shr_is_div};

/// Fixed number of entries in the segment table.
pub const MAX_SEGMENT_COUNT: usize = 26;

/// Segments of size 1, 2, 4, 8, 16, and 32 are never allocated; the smallest
/// segment holds 64 elements, to avoid the overhead of tiny segments.
pub const SMALL_SEGMENTS_TO_SKIP: u64 = 6;

/// Size of the smallest segment: `1 << SMALL_SEGMENTS_TO_SKIP`.
pub const SMALL_SEGMENTS_CAPACITY: u64 = 64;

/// Total number of elements all 26 segments together can hold:
/// `seg_capacity(MAX_SEGMENT_COUNT)`.
pub const MAX_CAPACITY: u64 = 4294967232;

/// Number of element slots in segment `seg`: `64 * 2^seg`.
pub open spec fn seg_slots(seg: nat) -> nat {
    64 * pow2(seg)
}

/// Cumulative number of element slots in segments `0 .. seg`:
/// `64 * 2^seg - 64`.
pub open spec fn seg_capacity(seg: nat) -> nat {
    (64 * pow2(seg) - 64) as nat
}

/// Integer base-2 logarithm, with `-1` for zero as an arithmetic artifact of
/// the bit scan the formula comes from; no caller reaches the zero case.
pub open spec fn spec_log2i(n: nat) -> int
    decreases n,
{
    if n == 0 {
        -1
    } else if n == 1 {
        0
    } else {
        1 + spec_log2i(n / 2)
    }
}

/// The segment holding global element index `i`: the unique `seg` with
/// `seg_capacity(seg) <= i < seg_capacity(seg + 1)`.
pub open spec fn segment_of_index(i: nat) -> nat {
    spec_log2i(i / 64 + 1) as nat
}

/// The slot within its segment holding global element index `i`.
pub open spec fn slot_of_index(i: nat) -> nat {
    (i - seg_capacity(segment_of_index(i))) as nat
}

/// How many of the first `count` elements land in segment `seg`.
pub open spec fn live_in_segment(count: nat, seg: nat) -> nat {
    if count <= seg_capacity(seg) {
        0
    } else if count >= seg_capacity(seg + 1) {
        seg_slots(seg)
    } else {
        (count - seg_capacity(seg)) as nat
    }
}

/// Each segment's slot count is the difference of consecutive cumulative
/// capacities.
pub proof fn lemma_seg_capacity_unfold(seg: nat)
    ensures
        seg_capacity(seg + 1) == seg_capacity(seg) + seg_slots(seg),
{
    lemma_pow2_adds(seg, 1);
    lemma2_to64();
    lemma_pow2_pos(seg);
}

/// Cumulative capacity never decreases with the segment number.
pub proof fn lemma_seg_capacity_increases(a: nat, b: nat)
    requires
        a <= b,
    ensures
        seg_capacity(a) <= seg_capacity(b),
{
    if a < b {
        lemma_pow2_strictly_increases(a, b);
        lemma_pow2_pos(a);
        assert(64 * pow2(a) <= 64 * pow2(b)) by (nonlinear_arith)
            requires
                pow2(a) <= pow2(b),
        ;
    }
}

/// Cumulative capacity strictly increases with the segment number.
pub proof fn lemma_seg_capacity_strictly_increases(a: nat, b: nat)
    requires
        a < b,
    ensures
        seg_capacity(a) < seg_capacity(b),
{
    lemma_pow2_strictly_increases(a, b);
    lemma_pow2_pos(a);
}

/// `spec_log2i(n)` is the exponent of the power of two bracketing `n`.
pub proof fn lemma_log2i_bounds(n: nat)
    requires
        n >= 1,
    ensures
        0 <= spec_log2i(n),
        pow2(spec_log2i(n) as nat) <= n,
        n < pow2((spec_log2i(n) + 1) as nat),
    decreases n,
{
    if n == 1 {
        lemma2_to64();
    } else {
        lemma_log2i_bounds(n / 2);
        let l = spec_log2i(n / 2) as nat;
        lemma_pow2_adds(l, 1);
        lemma_pow2_adds(l + 1, 1);
        lemma2_to64();
        assert(pow2(l + 1) == 2 * pow2(l));
        assert(pow2(l + 2) == 2 * pow2(l + 1));
        assert(2 * (n / 2) <= n < 2 * (n / 2) + 2);
    }
}

/// The segment computed for index `i` really brackets `i`:
/// `seg_capacity(seg) <= i < seg_capacity(seg + 1)`.
pub proof fn lemma_segment_of_index(i: nat)
    ensures
        seg_capacity(segment_of_index(i)) <= i,
        i < seg_capacity(segment_of_index(i) + 1),
{
    let q = i / 64 + 1;
    lemma_log2i_bounds(q);
    let s = spec_log2i(q) as nat;
    lemma_pow2_pos(s);
    lemma_pow2_pos(s + 1);
    assert(64 * (i / 64) <= i < 64 * (i / 64) + 64) by (nonlinear_arith);
    // seg_capacity(s) = 64 * pow2(s) - 64 <= 64 * (q - 1) = 64 * (i / 64) <= i
    assert(64 * pow2(s) <= 64 * q) by (nonlinear_arith)
        requires
            pow2(s) <= q,
    ;
    // i < 64 * (i / 64) + 64 = 64 * q <= 64 * pow2(s + 1) - 64 = seg_capacity(s + 1)
    assert(64 * (q + 1) <= 64 * pow2(s + 1)) by (nonlinear_arith)
        requires
            q + 1 <= pow2(s + 1),
    ;
}

/// An index below the cumulative capacity of `n` segments lives in a segment
/// numbered below `n`.
pub proof fn lemma_segment_of_index_below(i: nat, n: nat)
    requires
        i < seg_capacity(n),
    ensures
        segment_of_index(i) < n,
{
    lemma_segment_of_index(i);
    let s = segment_of_index(i);
    if s >= n {
        lemma_seg_capacity_increases(n, s);
        assert(false);
    }
}

/// Appending one element adds it to the segment holding index `count` and
/// leaves every other segment's share unchanged.
pub proof fn lemma_live_in_segment_step(count: nat, s: nat)
    ensures
        s == segment_of_index(count) ==> live_in_segment(count + 1, s) == live_in_segment(
            count,
            s,
        ) + 1,
        s != segment_of_index(count) ==> live_in_segment(count + 1, s) == live_in_segment(
            count,
            s,
        ),
{
    lemma_segment_of_index(count);
    let seg = segment_of_index(count);
    if s == seg {
        lemma_seg_capacity_unfold(s);
    } else if s < seg {
        lemma_seg_capacity_increases(s + 1, seg);
        lemma_seg_capacity_unfold(s);
    } else {
        lemma_seg_capacity_increases(seg + 1, s);
    }
}

/// A segment's share of the elements grows with the count.
pub proof fn lemma_live_in_segment_monotonic(c1: nat, c2: nat, s: nat)
    requires
        c1 <= c2,
    ensures
        live_in_segment(c1, s) <= live_in_segment(c2, s),
{
    lemma_seg_capacity_unfold(s);
}

/// A cursor at or before index `j` has consumed no slot of `j`'s segment
/// beyond `j`'s own.
pub proof fn lemma_live_below_slot(idx: nat, j: nat)
    requires
        idx <= j,
    ensures
        live_in_segment(idx, segment_of_index(j)) <= slot_of_index(j),
{
    lemma_segment_of_index(j);
}

/// An index below `count` sits at a slot below its segment's live share.
pub proof fn lemma_slot_within_live(i: nat, count: nat)
    requires
        i < count,
    ensures
        slot_of_index(i) < live_in_segment(count, segment_of_index(i)),
        seg_capacity(segment_of_index(i)) + slot_of_index(i) == i,
{
    lemma_segment_of_index(i);
    let seg = segment_of_index(i);
    if count >= seg_capacity(seg + 1) {
        lemma_seg_capacity_unfold(seg);
    }
}

/// Law: the cumulative capacities anchor at 0, 64 and 4,294,967,232, and every
/// segment's slot count is exactly the difference of consecutive cumulative
/// capacities.
pub proof fn lemma_segment_arithmetic()
    ensures
        seg_capacity(0) == 0,
        seg_capacity(1) == 64,
        seg_capacity(MAX_SEGMENT_COUNT as nat) == MAX_CAPACITY,
        forall|seg: nat| #[trigger] seg_slots(seg) == seg_capacity(seg + 1) - seg_capacity(seg),
{
    lemma2_to64();
    assert forall|seg: nat| #[trigger] seg_slots(seg) == seg_capacity(seg + 1) - seg_capacity(
        seg,
    ) by {
        lemma_seg_capacity_unfold(seg);
    }
}

/// Bound used to rule out overflow: a segment within the table holds at most
/// `2^32` slots.
pub proof fn lemma_seg_slots_fits(seg: nat)
    requires
        seg <= MAX_SEGMENT_COUNT,
    ensures
        64 <= 64 * pow2(seg) <= 0x100000000,
{
    lemma2_to64();
    lemma_pow2_pos(seg);
    if seg < 26 {
        lemma_pow2_strictly_increases(seg, 26);
    }
}

/// Calculates the number of elements that will fit into the given segment.
pub fn slots_in_segment(segment: usize) -> (r: u64)
    requires
        segment <= MAX_SEGMENT_COUNT,
    ensures
        r == seg_slots(segment as nat),
{
    proof {
        lemma_seg_slots_fits(segment as nat);
        lemma_u64_shl_is_mul(SMALL_SEGMENTS_CAPACITY, segment as u64);
    }
    SMALL_SEGMENTS_CAPACITY << (segment as u64)
}

/// Calculates the overall capacity for all segments up to the given segment.
pub fn capacity_for_segment_count(segment: usize) -> (r: u64)
    requires
        segment <= MAX_SEGMENT_COUNT,
    ensures
        r == seg_capacity(segment as nat),
{
    proof {
        lemma_seg_slots_fits(segment as nat);
        lemma_u64_shl_is_mul(SMALL_SEGMENTS_CAPACITY, segment as u64);
    }
    (SMALL_SEGMENTS_CAPACITY << (segment as u64)) - SMALL_SEGMENTS_CAPACITY
}

/// Integer base-2 logarithm, returning `-1` for zero; used to compute the
/// segment for a given offset within the segmented array.
pub fn log2i(value: u64) -> (r: i32)
    ensures
        r == spec_log2i(value as nat),
{
    if value == 0 {
        return -1;
    }
    proof {
        lemma2_to64();
        assert(pow2(0) * value == value) by (nonlinear_arith)
            requires
                pow2(0) == 1,
        ;
    }
    let mut v: u64 = value;
    let mut r: i32 = 0;
    while v > 1
        invariant
            1 <= v <= value,
            0 <= r < 64,
            spec_log2i(value as nat) == r + spec_log2i(v as nat),
            pow2(r as nat) * v <= value,
        decreases v,
    {
        proof {
            lemma_pow2_adds(r as nat, 1);
            lemma2_to64();
            lemma_pow2_pos(r as nat);
            assert(pow2((r + 1) as nat) * ((v / 2) as nat) <= pow2(r as nat) * v) by (
            nonlinear_arith)
                requires
                    pow2((r + 1) as nat) == 2 * pow2(r as nat),
                    v >= 1,
            ;
            // r + 1 stays below 64: pow2(r + 1) <= value < pow2(64)
            assert(2 * pow2(r as nat) <= pow2(r as nat) * v) by (nonlinear_arith)
                requires
                    v >= 2,
                    pow2(r as nat) >= 1,
            ;
            if r + 1 >= 64 {
                if r + 1 > 64 {
                    lemma_pow2_strictly_increases(64, (r + 1) as nat);
                }
                assert(false);
            }
        }
        v = v / 2;
        r = r + 1;
    }
    r
}

/// Computes the segment holding the given global element index, in constant
/// time, as the bit position of the highest set bit of `(index >> 6) + 1`.
pub fn segment_for_index(index: u64) -> (seg: usize)
    requires
        index < MAX_CAPACITY,
    ensures
        seg == segment_of_index(index as nat),
        seg < MAX_SEGMENT_COUNT,
        seg_capacity(seg as nat) <= index < seg_capacity((seg + 1) as nat),
{
    proof {
        lemma_u64_shr_is_div(index, 6);
        lemma2_to64();
    }
    let q = (index >> SMALL_SEGMENTS_TO_SKIP) + 1;
    let s = log2i(q);
    proof {
        lemma_log2i_bounds(q as nat);
        lemma_segment_of_index(index as nat);
        lemma_segment_of_index_below(index as nat, MAX_SEGMENT_COUNT as nat);
    }
    s as usize
}

} // verus!
