//! Powers of two and bit lengths of machine integers.

use vstd::arithmetic::power2::*;
use vstd::bits::*;
use vstd::prelude::*;
use vstd::std_specs::bits::*;

verus! {

/// Number of binary digits of `m`: zero for zero, else the `l` with
/// `2^(l-1) <= m < 2^l`.
pub open spec fn has_bit_length(m: nat, l: nat) -> bool {
    if m == 0 {
        l == 0
    } else {
        l >= 1 && pow2((l - 1) as nat) <= m < pow2(l)
    }
}

/// Number of binary digits of `m`, by halving.
pub open spec fn bit_len(m: nat) -> nat
    decreases m,
{
    if m == 0 {
        0
    } else {
        1 + bit_len(m / 2)
    }
}

/// `bit_len` yields the bit length.
pub proof fn lemma_bit_len(m: nat)
    ensures
        has_bit_length(m, bit_len(m)),
    decreases m,
{
    lemma2_to64();
    if m != 0 {
        lemma_bit_len(m / 2);
        let l = bit_len(m / 2);
        if m / 2 == 0 {
            assert(m == 1);
        } else {
            lemma_pow2_unfold(l);
            lemma_pow2_unfold((l + 1) as nat);
        }
    }
}

/// A value has at most one bit length.
pub proof fn lemma_bit_length_unique(m: nat, l1: nat, l2: nat)
    requires
        has_bit_length(m, l1),
        has_bit_length(m, l2),
    ensures
        l1 == l2,
{
    if m != 0 {
        if l1 < l2 {
            if l1 < l2 - 1 {
                lemma_pow2_strictly_increases(l1, (l2 - 1) as nat);
            }
        } else if l2 < l1 {
            if l2 < l1 - 1 {
                lemma_pow2_strictly_increases(l2, (l1 - 1) as nat);
            }
        }
    }
}

/// `2^k` as a machine integer.
pub fn two_pow(k: u32) -> (r: u128)
    requires
        k < 128,
    ensures
        r == pow2(k as nat),
{
    proof {
        lemma2_to64();
    }
    if k < 64 {
        let s: u64 = k as u64;
        proof {
            lemma_u64_pow2_no_overflow(k as nat);
            lemma_u64_shl_is_mul(1u64, s);
        }
        (1u64 << s) as u128
    } else {
        let s: u64 = (k - 64) as u64;
        proof {
            lemma_u64_pow2_no_overflow((k - 64) as nat);
            lemma_u64_shl_is_mul(1u64, s);
            lemma_pow2_adds((k - 64) as nat, 64);
        }
        ((1u64 << s) as u128) * 0x1_0000_0000_0000_0000u128
    }
}

/// Bit length of a 64-bit value.
fn bit_length_64(m: u64) -> (l: u32)
    ensures
        l <= 64,
        has_bit_length(m as nat, l as nat),
{
    let z: u32 = m.leading_zeros();
    proof {
        axiom_u64_leading_zeros(m);
        if m != 0 {
            let l: u64 = (64 - z) as u64;
            let top: u64 = (l - 1) as u64;
            let shifted: u64 = m >> top;
            assert(shifted & 1u64 != 0u64);
            assert(shifted >= 1) by (bit_vector)
                requires
                    shifted & 1u64 != 0u64,
            ;
            lemma_u64_shr_is_div(m, top);
            lemma_pow2_pos(top as nat);
            assert(m as nat >= pow2(top as nat)) by (nonlinear_arith)
                requires
                    m as nat / pow2(top as nat) >= 1,
                    pow2(top as nat) > 0,
            ;
            if l < 64 {
                lemma_u64_shr_is_div(m, l);
                lemma_pow2_pos(l as nat);
                assert((m as nat) < pow2(l as nat)) by (nonlinear_arith)
                    requires
                        m as nat / pow2(l as nat) == 0,
                        pow2(l as nat) > 0,
                ;
            } else {
                lemma2_to64();
            }
        }
    }
    64 - z
}

/// Bit length of a 128-bit value.
pub fn bit_length(m: u128) -> (l: u32)
    ensures
        l <= 128,
        l == bit_len(m as nat),
{
    proof {
        lemma_bit_len(m as nat);
    }
    let hi: u64 = (m / 0x1_0000_0000_0000_0000u128) as u64;
    let lo: u64 = (m % 0x1_0000_0000_0000_0000u128) as u64;
    if hi == 0 {
        let l: u32 = bit_length_64(lo);
        proof {
            lemma_bit_length_unique(m as nat, l as nat, bit_len(m as nat));
        }
        l
    } else {
        let h: u32 = bit_length_64(hi);
        proof {
            lemma2_to64();
            lemma_pow2_adds((h - 1) as nat, 64);
            lemma_pow2_adds(h as nat, 64);
            assert(m == hi * 0x1_0000_0000_0000_0000 + lo);
            assert(pow2((h - 1) as nat) * pow2(64) <= hi * pow2(64)) by (nonlinear_arith)
                requires
                    pow2((h - 1) as nat) <= hi,
            ;
            assert((hi + 1) * pow2(64) <= pow2(h as nat) * pow2(64)) by (nonlinear_arith)
                requires
                    hi + 1 <= pow2(h as nat),
            ;
            lemma_bit_length_unique(m as nat, (h + 64) as nat, bit_len(m as nat));
        }
        h + 64
    }
}

} // verus!
