//! Exact range checks on top of a 10-bit lookup.
use vstd::arithmetic::power2::pow2;
use vstd::prelude::*;

use crate::pallas::Base;

verus! {

/// Word size of the lookup.
pub const WORD_BITS: u32 = 10;

/// Whole words and remaining bits of a range check: the words go through the running sum, and for
/// the bits that do not fill a word the last element of the sum gets a short check.
pub fn words(bits: u32) -> (r: (usize, usize))
    ensures
        r.0 * 10 + r.1 == bits,
        r.1 < 10,
{
    ((bits / WORD_BITS) as usize, (bits % WORD_BITS) as usize)
}

/// `cell < 2^bits`, exactly.
///
/// Whole 10-bit words go through the running sum; for the bits that do not fill a word, the
/// running sum stops early and its last element, `(x - low words) / 2^(10 * words)`, gets a
/// short check on the remaining bits. That pins `x` to `bits` bits without a second decomposition.
pub fn check_bits(cell: &Base, bits: u32) -> (r: bool)
    requires
        bits < 128,
    ensures
        r == (cell@ < pow2(bits as nat)),
{
    let low: u128 = cell.low_half();
    if !Base::from_u128(low).same(cell) {
        proof {
            lemma_large(cell@, bits as nat);
        }
        return false;
    }
    let (words, extra) = words(bits);
    let mut rest: u128 = low;
    let mut i: usize = 0;
    proof {
        vstd::arithmetic::power2::lemma2_to64();
        assert(low as nat / pow2(0) == low as nat);
    }
    while i < words
        invariant
            i <= words < 13,
            rest as nat == low as nat / pow2((10 * i) as nat),
        decreases words - i,
    {
        proof {
            vstd::arithmetic::power2::lemma2_to64();
            vstd::arithmetic::power2::lemma_pow2_adds((10 * i) as nat, 10);
            vstd::arithmetic::power2::lemma_pow2_pos((10 * i) as nat);
            vstd::arithmetic::div_mod::lemma_div_denominator(
                low as int,
                pow2((10 * i) as nat) as int,
                1024,
            );
        }
        rest = rest / 1024;
        i = i + 1;
    }
    let mut limit: u128 = 1;
    let mut k: usize = 0;
    while k < extra
        invariant
            k <= extra < 10,
            limit as nat == pow2(k as nat),
            limit <= 512,
        decreases extra - k,
    {
        proof {
            vstd::arithmetic::power2::lemma_pow2_unfold((k + 1) as nat);
            vstd::arithmetic::power2::lemma2_to64();
            if k < 9 {
                vstd::arithmetic::power2::lemma_pow2_strictly_increases(k as nat, 9);
            }
        }
        limit = limit * 2;
        k = k + 1;
        proof {
            if k < 9 {
                vstd::arithmetic::power2::lemma_pow2_strictly_increases(k as nat, 9);
            }
        }
    }
    proof {
        let p = pow2((10 * words) as nat) as int;
        vstd::arithmetic::power2::lemma_pow2_pos((10 * words) as nat);
        vstd::arithmetic::power2::lemma_pow2_adds((10 * words) as nat, extra as nat);
        let e = pow2(extra as nat) as int;
        let x = low as int;
        vstd::arithmetic::div_mod::lemma_fundamental_div_mod(x, p);
        let q = x / p;
        let m = x % p;
        assert(q < e <==> x < p * e) by (nonlinear_arith)
            requires
                x == p * q + m,
                0 <= m < p,
        ;
    }
    rest < limit
}

proof fn lemma_large(x: nat, bits: nat)
    requires
        bits < 128,
        x % 0x1_0000_0000_0000_0000_0000_0000_0000_0000nat != x,
    ensures
        x >= pow2(bits),
{
    if x < 0x1_0000_0000_0000_0000_0000_0000_0000_0000nat {
        vstd::arithmetic::div_mod::lemma_small_mod(
            x,
            0x1_0000_0000_0000_0000_0000_0000_0000_0000nat,
        );
    }
    vstd::arithmetic::power2::lemma2_to64();
    vstd::arithmetic::power2::lemma_pow2_adds(64, 64);
    vstd::arithmetic::power2::lemma_pow2_strictly_increases(bits, 128);
}

} // verus!
