//! Most significant bit of a 32-bit word and the carry facts that the timer
//! hierarchy rests on.
use vstd::prelude::*;
use vstd::std_specs::bits::u32_leading_zeros;

verus! {

broadcast use vstd::std_specs::bits::axiom_u32_leading_zeros;

/// Index of the most significant set bit of `v` (0 for `v <= 1`).
pub open spec fn msb(v: u32) -> nat
    decreases v,
{
    if v <= 1 {
        0
    } else {
        1 + msb(v / 2)
    }
}

/// Level of a timeout `deadline` seen from the tick count `now`: the most
/// significant bit in which the two differ, capped at `levels - 1`.
pub open spec fn level(now: u32, deadline: u32, levels: int) -> int {
    let m = msb(now ^ deadline) as int;
    if m < levels - 1 {
        m
    } else {
        levels - 1
    }
}

proof fn lemma_shr_step(v: u32, m: u32)
    by (bit_vector)
    requires
        m < 31,
    ensures
        (v / 2) >> m == v >> (m + 1) as u32,
{
}

/// `v >> msb(v)` is 1 for every nonzero `v`, and `msb(v) < 32`.
pub proof fn lemma_msb_shift(v: u32)
    requires
        v > 0,
    ensures
        msb(v) < 32,
        v >> (msb(v) as u32) == 1,
    decreases v,
{
    if v <= 1 {
        assert(1u32 >> 0u32 == 1) by (bit_vector);
    } else {
        lemma_msb_shift(v / 2);
        let m = msb(v / 2) as u32;
        assert(m < 31) by {
            assert(v / 2 >> m == 1);
            if m == 31 {
                assert(v / 2 < 0x8000_0000);
                assert(forall|w: u32| w < 0x8000_0000 ==> w >> 31u32 == 0) by (bit_vector);
            }
        }
        lemma_shr_step(v, m);
    }
}

/// The index at which a word shifts down to exactly 1 is unique.
pub proof fn lemma_shift_one_unique(v: u32, a: u32, b: u32)
    by (bit_vector)
    requires
        a < 32,
        b < 32,
        v >> a == 1,
        v >> b == 1,
    ensures
        a == b,
{
}

proof fn lemma_top_bit(w: u32, j: u32)
    by (bit_vector)
    requires
        j < 32,
        (w >> j) & 1u32 != 0u32,
        w >> (j + 1) as u32 == 0,
    ensures
        w >> j == 1,
{
}

/// `31 - v.leading_zeros()` is `msb(v)` for nonzero `v`.
pub proof fn lemma_leading_zeros_msb(v: u32)
    requires
        v > 0,
    ensures
        u32_leading_zeros(v) < 32,
        31 - u32_leading_zeros(v) == msb(v),
{
    let lz = u32_leading_zeros(v);
    assert(lz < 32);
    let a = (31 - lz) as u32;
    assert((v >> a) & 1u32 != 0u32);
    assert(v >> (a + 1) as u32 == 0);
    lemma_top_bit(v, a);
    lemma_msb_shift(v);
    lemma_shift_one_unique(v, a, msb(v) as u32);
}

/// Carry facts of one tick from `t` to `u == t + 1`, for a deadline `d`
/// ahead of `t`: with `m` the top differing bit of `t` and `d` and `k` that
/// of `t` and `u`, the carry never reaches above `m`; below `m` the deadline
/// keeps its top differing bit; at `m` the new count does not pass `d`.
proof fn lemma_carry_bits(t: u32, u: u32, d: u32, m: u32, k: u32)
    by (bit_vector)
    requires
        t < d,
        t < 0xffff_ffff,
        u == t + 1,
        m < 32,
        k < 32,
        (t ^ d) >> m == 1,
        (t ^ u) >> k == 1,
    ensures
        k <= m,
        k < m ==> (d ^ u) >> m == 1 && u < d,
        k == m ==> u <= d,
{
}

/// What one tick from `now` does to a deadline `deadline > now` stored at
/// level `level(now, deadline, levels)`, when the tick processes level
/// `level(now, now + 1, levels)`.
pub proof fn lemma_tick_level(now: u32, deadline: u32, levels: int)
    requires
        now < deadline,
        levels >= 1,
    ensures
        level(now, (now + 1) as u32, levels) != level(now, deadline, levels) ==> now + 1 < deadline
            && level((now + 1) as u32, deadline, levels) == level(now, deadline, levels),
        level(now, (now + 1) as u32, levels) == level(now, deadline, levels) ==> now + 1 <= deadline,
        deadline == now + 1 ==> level(now, (now + 1) as u32, levels) == level(now, deadline, levels),
{
    let u = (now + 1) as u32;
    assert(now ^ deadline != 0) by (bit_vector)
        requires
            now < deadline,
    ;
    assert(now ^ u != 0) by (bit_vector)
        requires
            u == now + 1,
    ;
    lemma_msb_shift(now ^ deadline);
    lemma_msb_shift(now ^ u);
    let m = msb(now ^ deadline) as u32;
    let k = msb(now ^ u) as u32;
    lemma_carry_bits(now, u, deadline, m, k);
    if k < m {
        assert(deadline ^ u != 0) by (bit_vector)
            requires
                u < deadline,
        ;
        lemma_msb_shift(deadline ^ u);
        assert(u ^ deadline == deadline ^ u) by (bit_vector);
        lemma_shift_one_unique(deadline ^ u, m, msb(deadline ^ u) as u32);
    }
}

} // verus!
