//! Simultaneous multi-base modular exponentiation: one left-to-right scan
//! over all exponents at once, squaring the accumulator once per bit
//! position and multiplying in every base whose exponent has that bit set.

use crate::natural::{
    from_u64, lemma_nth_bit, lemma_value_bound, mul_rem, nth_bit, rem_exact, Natural,
};
use crate::GmpMEEError;
use vstd::arithmetic::div_mod::{
    lemma_basic_div, lemma_div_basics, lemma_mul_mod_noop_general, lemma_mul_mod_noop_left,
};
use vstd::arithmetic::power::{lemma_pow0, lemma_pow1, lemma_pow_adds, pow};
use vstd::arithmetic::power2::{lemma2_to64, lemma_pow2_pos, lemma_pow2_strictly_increases, pow2};
use vstd::prelude::*;

verus! {

/// The product of the first `i` powers, each exponent shifted right by
/// `k` bits: `prod_{l < i} bs[l] ^ (es[l] / 2^k)`.
pub open spec fn prod_pows_partial(bs: Seq<Natural>, es: Seq<Natural>, k: nat, i: int) -> int
    decreases i,
{
    if i <= 0 {
        1
    } else {
        prod_pows_partial(bs, es, k, i - 1) * pow(bs[i - 1]@ as int, es[i - 1]@ / pow2(k))
    }
}

/// The product of all the powers: `prod_l bs[l] ^ es[l]`.
pub open spec fn prod_pows(bs: Seq<Natural>, es: Seq<Natural>) -> int {
    prod_pows_partial(bs, es, 0, bs.len() as int)
}

/// The product of the first `i` reduced powers:
/// `prod_{l < i} (bs[l] ^ es[l] mod m)`.
pub open spec fn prod_pow_mods(bs: Seq<Natural>, es: Seq<Natural>, m: int, i: int) -> int
    decreases i,
{
    if i <= 0 {
        1
    } else {
        prod_pow_mods(bs, es, m, i - 1) * (pow(bs[i - 1]@ as int, es[i - 1]@) % m)
    }
}

/// The law behind `spowm`'s contract: reducing the product of the whole
/// powers once agrees with the product of the individually reduced
/// powers, reduced once more — for every prefix, every pair of equally
/// long base and exponent lists, and every modulus above zero.
pub proof fn lemma_spowm_matches_pow_mods(bs: Seq<Natural>, es: Seq<Natural>, m: int, i: int)
    requires
        m > 0,
        0 <= i,
    ensures
        prod_pows_partial(bs, es, 0, i) % m == prod_pow_mods(bs, es, m, i) % m,
    decreases i,
{
    lemma2_to64();
    if i > 0 {
        lemma_spowm_matches_pow_mods(bs, es, m, i - 1);
        let a = prod_pows_partial(bs, es, 0, i - 1);
        let c = prod_pow_mods(bs, es, m, i - 1);
        let e = es[i - 1]@;
        let t = pow(bs[i - 1]@ as int, e / pow2(0));
        lemma_div_basics(e as int);
        assert(e / pow2(0) == e);
        lemma_mul_mod_noop_general(a, t, m);
        lemma_mul_mod_noop_general(c, t, m);
        assert((a * t) % m == ((a % m) * t) % m);
        assert(((c % m) * t) % m == (c * t) % m);
        assert((c * t) % m == (c * (t % m)) % m);
    }
}

/// The product of the bases whose exponent has bit `k` set, over the
/// first `i` pairs.
pub open spec fn prod_bits(bs: Seq<Natural>, es: Seq<Natural>, k: nat, i: int) -> int
    decreases i,
{
    if i <= 0 {
        1
    } else {
        prod_bits(bs, es, k, i - 1) * if nth_bit(es[i - 1]@, k) {
            bs[i - 1]@ as int
        } else {
            1
        }
    }
}

/// While every exponent is still entirely shifted out, the product of
/// powers is the empty product.
pub proof fn lemma_prod_pows_high(bs: Seq<Natural>, es: Seq<Natural>, k: nat, i: int)
    requires
        0 <= i,
        forall|l: int| 0 <= l < i ==> es[l]@ < pow2(k),
    ensures
        prod_pows_partial(bs, es, k, i) == 1,
    decreases i,
{
    if i > 0 {
        lemma_prod_pows_high(bs, es, k, (i - 1) as int);
        lemma_pow2_pos(k);
        lemma_basic_div(es[i - 1]@ as int, pow2(k) as int);
        lemma_pow0(bs[i - 1]@ as int);
    }
}

/// One scan step for the whole product: shifting every exponent one bit
/// back in squares the product of the shifted powers and multiplies in
/// the bases whose exponent has that bit set.
pub proof fn lemma_prod_pows_step(bs: Seq<Natural>, es: Seq<Natural>, k: nat, i: int)
    requires
        0 <= i,
    ensures
        prod_pows_partial(bs, es, k, i) == prod_pows_partial(bs, es, k + 1, i)
            * prod_pows_partial(bs, es, k + 1, i) * prod_bits(bs, es, k, i),
    decreases i,
{
    if i > 0 {
        lemma_prod_pows_step(bs, es, k, i - 1);
        let b = bs[i - 1]@ as int;
        let e = es[i - 1]@;
        let pk = prod_pows_partial(bs, es, k, i - 1);
        let q = prod_pows_partial(bs, es, k + 1, i - 1);
        let bi = prod_bits(bs, es, k, i - 1);
        let si = pow(b, e / pow2(k + 1));
        let ci: int = if nth_bit(e, k) { b } else { 1 };
        let ti = pow(b, e / pow2(k));
        assert(ti == si * si * ci) by {
            crate::modpow::lemma_exp_div_step(e, k);
            let x = e / pow2(k + 1);
            if nth_bit(e, k) {
                lemma_pow_adds(b, x, x);
                lemma_pow_adds(b, 2 * x, 1);
                lemma_pow1(b);
                assert(e / pow2(k) == 2 * x + 1);
            } else {
                lemma_pow_adds(b, x, x);
                assert(e / pow2(k) == 2 * x);
            }
        }
        assert(pk * ti == (q * si) * (q * si) * (bi * ci)) by (nonlinear_arith)
            requires
                pk == q * q * bi,
                ti == si * si * ci,
        ;
    }
}

/// The product of several modular powers with one shared modulus:
/// `prod_i bases[i] ^ exponents[i] mod modulus`, or a parameter error
/// when the two slices do not pair up.
pub fn spowm(bases: &Vec<Natural>, exponents: &Vec<Natural>, modulus: &Natural) -> (r: Result<
    Natural,
    GmpMEEError,
>)
    requires
        modulus@ > 1,
    ensures
        match r {
            Ok(v) => {
                &&& bases@.len() == exponents@.len()
                &&& v@ == prod_pows(bases@, exponents@) % (modulus@ as int)
                &&& v@ == prod_pow_mods(
                    bases@,
                    exponents@,
                    modulus@ as int,
                    bases@.len() as int,
                ) % (modulus@ as int)
                &&& v.wf()
            },
            Err(e) => {
                &&& bases@.len() != exponents@.len()
                &&& e == (GmpMEEError::SPowmParameters {
                    bases_len: bases@.len() as usize,
                    exponents_len: exponents@.len() as usize,
                })
            },
        },
{
    let n = bases.len();
    if n != exponents.len() {
        return Err(GmpMEEError::SPowmParameters {
            bases_len: bases.len(),
            exponents_len: exponents.len(),
        });
    }
    let mut maxlen: usize = 0;
    let mut i: usize = 0;
    while i < n
        invariant
            n == exponents@.len(),
            i <= n,
            forall|l: int| 0 <= l < i ==> exponents@[l].bytes@.len() <= maxlen,
        decreases n - i,
    {
        let el = exponents.get(i).unwrap().bytes.len();
        if el > maxlen {
            maxlen = el;
        }
        i += 1;
    }
    let one = from_u64(1);
    let mut acc = rem_exact(&one, modulus);
    let mut j: usize = maxlen;
    proof {
        assert forall|l: int| 0 <= l < n implies exponents@[l]@ < pow2(8 * maxlen as nat) by {
            lemma_value_bound(exponents@[l].bytes@);
            if 8 * exponents@[l].bytes@.len() < 8 * maxlen as nat {
                lemma_pow2_strictly_increases(8 * exponents@[l].bytes@.len(), 8 * maxlen as nat);
            }
        }
        lemma_prod_pows_high(bases@, exponents@, 8 * maxlen as nat, n as int);
    }
    while j > 0
        invariant
            n == bases@.len(),
            n == exponents@.len(),
            j <= maxlen,
            modulus@ > 1,
            acc.wf(),
            acc@ == prod_pows_partial(bases@, exponents@, 8 * j as nat, n as int) % (
            modulus@ as int),
        decreases j,
    {
        j -= 1;
        let mut r: usize = 8;
        proof {
            assert(8 * (j + 1) as nat == 8 * j as nat + 8);
        }
        while r > 0
            invariant
                n == bases@.len(),
                n == exponents@.len(),
                j < maxlen,
                r <= 8,
                modulus@ > 1,
                acc.wf(),
                acc@ == prod_pows_partial(bases@, exponents@, 8 * j as nat + r as nat, n as int)
                    % (modulus@ as int),
            decreases r,
        {
            r -= 1;
            let ghost kk = 8 * j as nat + r as nat;
            let ghost p1 = prod_pows_partial(bases@, exponents@, kk + 1, n as int);
            proof {
                lemma_mul_mod_noop_general(p1, p1, modulus@ as int);
                assert(acc@ == p1 % (modulus@ as int));
            }
            acc = mul_rem(&acc, &acc, modulus);
            proof {
                assert(acc@ == ((p1 % (modulus@ as int)) * (p1 % (modulus@ as int))) % (
                modulus@ as int));
                assert(acc@ == (p1 * p1) % (modulus@ as int));
                assert(prod_bits(bases@, exponents@, kk, 0) == 1);
            }
            let mut i: usize = 0;
            while i < n
                invariant
                    n == bases@.len(),
                    n == exponents@.len(),
                    i <= n,
                    j < maxlen,
                    r < 8,
                    modulus@ > 1,
                    acc.wf(),
                    acc@ == (p1 * p1 * prod_bits(bases@, exponents@, kk, i as int)) % (
                    modulus@ as int),
                    kk == 8 * j as nat + r as nat,
                    p1 == prod_pows_partial(bases@, exponents@, kk + 1, n as int),
                decreases n - i,
            {
                let ei = exponents.get(i).unwrap();
                let byte: u8 = if j < ei.bytes.len() {
                    *ei.bytes.get(j).unwrap()
                } else {
                    0
                };
                let bitset = ((byte >> (r as u8)) & 1) == 1;
                proof {
                    vstd::bits::lemma_u8_shr_is_div(byte, r as u8);
                    assert((byte >> (r as u8)) & 1 == (byte >> (r as u8)) % 2) by (bit_vector);
                    if j < ei.bytes@.len() {
                        lemma_nth_bit(ei.bytes@, j as nat, r as nat);
                        assert(byte == ei.bytes@[j as int]);
                    } else {
                        assert(byte == 0);
                        assert(byte >> (r as u8) == 0) by (bit_vector)
                            requires
                                byte == 0,
                        ;
                        lemma_value_bound(ei.bytes@);
                        lemma_pow2_pos(kk);
                        if 8 * ei.bytes@.len() < kk {
                            lemma_pow2_strictly_increases(8 * ei.bytes@.len(), kk);
                        }
                        lemma_basic_div(ei@ as int, pow2(kk) as int);
                    }
                    assert(bitset == nth_bit(ei@, kk));
                    let pb = prod_bits(bases@, exponents@, kk, i as int);
                    let pbn = prod_bits(bases@, exponents@, kk, i + 1);
                    if bitset {
                        let b = bases@[i as int]@ as int;
                        lemma_mul_mod_noop_left(p1 * p1 * pb, b, modulus@ as int);
                        assert((p1 * p1 * pb) * b == p1 * p1 * (pb * b)) by (nonlinear_arith);
                        assert(pbn == pb * b);
                    } else {
                        assert(pbn == pb * 1);
                    }
                }
                if bitset {
                    acc = mul_rem(&acc, bases.get(i).unwrap(), modulus);
                }
                i += 1;
            }
            proof {
                lemma_prod_pows_step(bases@, exponents@, kk, n as int);
            }
        }
    }
    proof {
        lemma2_to64();
        assert forall|l: int| 0 <= l < n implies exponents@[l]@ / pow2(0) == exponents@[l]@ by {
            lemma_div_basics(exponents@[l]@ as int);
        }
        lemma_spowm_matches_pow_mods(bases@, exponents@, modulus@ as int, n as int);
    }
    Ok(acc)
}

} // verus!
