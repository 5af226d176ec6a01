//! Verified modular exponentiation: a left-to-right binary
//! square-and-multiply scan over the exponent's bits, built on the trusted
//! ring operations.

use crate::natural::{
    bytes_value, from_u64, lemma_nth_bit, lemma_value_bound, mul_rem, nth_bit, rem_exact, Natural,
};
use vstd::arithmetic::div_mod::{
    lemma_basic_div, lemma_div_basics, lemma_div_denominator, lemma_fundamental_div_mod,
    lemma_mul_mod_noop_general, lemma_mul_mod_noop_left,
};
use vstd::arithmetic::power::{lemma_pow0, lemma_pow1, lemma_pow_adds, pow};
use vstd::arithmetic::power2::{lemma2_to64, lemma_pow2_adds, lemma_pow2_pos, pow2};
use vstd::prelude::*;

verus! {

/// Squaring a residue of `b^x` modulo `m` gives the residue of `b^(2x)`.
pub proof fn lemma_pow_mod_square(b: int, x: nat, m: int)
    requires
        m > 0,
    ensures
        ((pow(b, x) % m) * (pow(b, x) % m)) % m == pow(b, 2 * x) % m,
{
    lemma_mul_mod_noop_general(pow(b, x), pow(b, x), m);
    lemma_pow_adds(b, x, x);
}

/// Multiplying a residue of `b^x` modulo `m` by `b` gives the residue of
/// `b^(x + 1)`.
pub proof fn lemma_pow_mod_times_base(b: int, x: nat, m: int)
    requires
        m > 0,
    ensures
        ((pow(b, x) % m) * b) % m == pow(b, x + 1) % m,
{
    lemma_mul_mod_noop_left(pow(b, x), b, m);
    lemma_pow1(b);
    lemma_pow_adds(b, x, 1);
}

/// One scan step: the exponent prefix down to bit `k` is twice the prefix
/// down to bit `k + 1`, plus bit `k`.
pub proof fn lemma_exp_div_step(e: nat, k: nat)
    ensures
        e / pow2(k + 1) == (e / pow2(k)) / 2,
        e / pow2(k) == 2 * (e / pow2(k + 1)) + if nth_bit(e, k) {
            1nat
        } else {
            0nat
        },
{
    lemma2_to64();
    lemma_pow2_pos(k);
    lemma_pow2_adds(k, 1);
    lemma_div_denominator(e as int, pow2(k) as int, 2);
    lemma_fundamental_div_mod((e / pow2(k)) as int, 2);
}

/// `b^e mod m`, scanning the bits of `e` from the most significant byte
/// down; every intermediate value stays reduced modulo `m`.
pub fn pow_mod(b: &Natural, e: &Natural, m: &Natural) -> (r: Natural)
    requires
        m@ > 0,
    ensures
        r@ == pow(b@ as int, e@) % (m@ as int),
        r.wf(),
{
    let one = from_u64(1);
    let mut acc = rem_exact(&one, m);
    let mut j: usize = e.bytes.len();
    proof {
        lemma_value_bound(e.bytes@);
        lemma_pow2_pos(8 * e.bytes@.len());
        lemma_basic_div(e@ as int, pow2(8 * e.bytes@.len()) as int);
        lemma_pow0(b@ as int);
    }
    while j > 0
        invariant
            j <= e.bytes@.len(),
            m@ > 0,
            acc.wf(),
            acc@ == pow(b@ as int, e@ / pow2(8 * j as nat)) % (m@ as int),
        decreases j,
    {
        j -= 1;
        let byte = *e.bytes.get(j).unwrap();
        let mut r: usize = 8;
        proof {
            assert(8 * (j + 1) as nat == 8 * j as nat + 8);
        }
        while r > 0
            invariant
                r <= 8,
                j < e.bytes@.len(),
                m@ > 0,
                acc.wf(),
                byte == e.bytes@[j as int],
                acc@ == pow(b@ as int, e@ / pow2(8 * j as nat + r as nat)) % (m@ as int),
            decreases r,
        {
            r -= 1;
            let ghost e_prev = e@ / pow2(8 * j as nat + r as nat + 1);
            let sq = mul_rem(&acc, &acc, m);
            let bitset = ((byte >> (r as u8)) & 1) == 1;
            proof {
                vstd::bits::lemma_u8_shr_is_div(byte, r as u8);
                assert((byte >> (r as u8)) & 1 == (byte >> (r as u8)) % 2) by (bit_vector);
                lemma_nth_bit(e.bytes@, j as nat, r as nat);
                lemma_exp_div_step(e@, 8 * j as nat + r as nat);
                lemma_pow_mod_square(b@ as int, e_prev, m@ as int);
                assert(bitset == nth_bit(e@, 8 * j as nat + r as nat));
            }
            if bitset {
                proof {
                    lemma_pow_mod_times_base(b@ as int, 2 * e_prev, m@ as int);
                }
                acc = mul_rem(&sq, b, m);
            } else {
                acc = sq;
            }
        }
    }
    proof {
        lemma2_to64();
        lemma_div_basics(e@ as int);
    }
    acc
}


} // verus!
