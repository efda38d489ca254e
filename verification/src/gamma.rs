//! Bit cost of the interlaced Elias-Gamma code.
//!
//! Every token of the ZX0 bitstream encodes its length (and, for matches with
//! a new offset, the offset's most significant part) as an interlaced
//! Elias-Gamma code. The code for a value `v >= 1` occupies
//! `2 * floor(log2(v)) + 1` bits; [`gamma_bits`] states that cost and the
//! lemmas below give the bounds the optimizer and the emitter rely on.

use vstd::prelude::*;

verus! {

/// Number of bits of the interlaced Elias-Gamma code for `v`, i.e.
/// `2 * floor(log2(v)) + 1` for `v >= 1`.
pub open spec fn gamma_bits(v: int) -> int
    decreases v,
{
    if v < 2 {
        1
    } else {
        2 + gamma_bits(v / 2)
    }
}

/// The code always takes at least one bit.
pub proof fn lemma_gamma_pos(v: int)
    ensures
        gamma_bits(v) >= 1,
    decreases v,
{
    if v >= 2 {
        lemma_gamma_pos(v / 2);
    }
}

/// The cost is monotone in the encoded value.
pub proof fn lemma_gamma_mono(a: int, b: int)
    requires
        a <= b,
    ensures
        gamma_bits(a) <= gamma_bits(b),
    decreases b,
{
    if a < 2 {
        lemma_gamma_pos(b);
    } else {
        lemma_gamma_mono(a / 2, b / 2);
    }
}

/// A linear bound: the code for `v >= 1` never exceeds `2 * v - 1` bits.
pub proof fn lemma_gamma_linear(v: int)
    requires
        v >= 1,
    ensures
        gamma_bits(v) <= 2 * v - 1,
    decreases v,
{
    if v >= 2 {
        lemma_gamma_linear(v / 2);
    }
}

/// Growing the value by one grows the cost by at most two bits.
pub proof fn lemma_gamma_step(v: int)
    requires
        v >= 2,
    ensures
        gamma_bits(v) <= gamma_bits(v - 1) + 2,
    decreases v,
{
    if v == 2 {
    } else if v % 2 == 1 {
        assert(v / 2 == (v - 1) / 2);
    } else {
        assert((v - 1) / 2 == v / 2 - 1);
        if v / 2 >= 2 {
            lemma_gamma_step(v / 2);
        }
    }
}

/// Values below `pow2(k)` cost at most `2 * k - 1` bits.
pub proof fn lemma_gamma_pow_bound(v: int, k: int)
    requires
        1 <= v,
        1 <= k,
        v < vstd::arithmetic::power2::pow2(k as nat),
    ensures
        gamma_bits(v) <= 2 * k - 1,
    decreases k,
{
    vstd::arithmetic::power2::lemma_pow2_unfold(k as nat);
    if k == 1 {
        vstd::arithmetic::power2::lemma2_to64();
    } else {
        if v < 2 {
        } else {
            lemma_gamma_pow_bound(v / 2, k - 1);
        }
    }
}

/// Any `u32` value costs at most 63 bits.
pub proof fn lemma_gamma_u32_bound(v: u32)
    requires
        v >= 1,
    ensures
        gamma_bits(v as int) <= 63,
{
    vstd::arithmetic::power2::lemma2_to64();
    lemma_gamma_pow_bound(v as int, 32);
}

/// Computes the Elias-Gamma bit cost of `value`, i.e.
/// `2 * floor(log2(value)) + 1`.
pub fn elias_gamma_bits(value: u32) -> (r: u32)
    requires
        value >= 1,
    ensures
        r == gamma_bits(value as int),
        1 <= r <= 63,
{
    proof {
        lemma_gamma_u32_bound(value);
    }
    let mut v = value;
    let mut r: u32 = 1;
    while v >= 2
        invariant
            1 <= v,
            1 <= r,
            gamma_bits(value as int) == r - 1 + gamma_bits(v as int),
            gamma_bits(value as int) <= 63,
        decreases v,
    {
        proof {
            lemma_gamma_pos((v / 2) as int);
        }
        v = v / 2;
        r = r + 2;
    }
    r
}

} // verus!
