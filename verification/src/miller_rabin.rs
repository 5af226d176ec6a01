//! Miller-Rabin probabilistic primality testing: a compositeness test
//! with randomly drawn witnesses, and the safe-prime variant that also
//! tests the Sophie-Germain companion `(n - 1) / 2`.

use crate::fpowm::lemma_mod_one;
use crate::modpow::lemma_pow_mod_square;
use crate::natural::{
    add_exact, bit, bytes_value, eq_nat, eq_u64, from_bytes, from_u64, is_even,
    lemma_canonical_len, lemma_value_bound, lt_u64, modpow_exact, mul_rem, shr_exact,
    sub_exact, Natural,
};
use vstd::arithmetic::div_mod::{lemma_fundamental_div_mod, lemma_mod_multiples_basic};
use vstd::arithmetic::mul::{lemma_mul_is_associative, lemma_mul_is_commutative};
use vstd::arithmetic::power::pow;
use vstd::arithmetic::power2::{
    lemma2_to64, lemma_pow2_adds, lemma_pow2_pos, lemma_pow2_strictly_increases, pow2,
};
use vstd::prelude::*;

verus! {

/// The Miller-Rabin decomposition of `n - 1`: it is `d * 2^s` with `d`
/// odd.
pub open spec fn mr_decomp(n1: nat, d: nat, s: nat) -> bool {
    n1 == d * pow2(s) && d % 2 == 1
}

/// Whether witness `a` leaves `n` a probable prime, for odd `n >= 3`
/// with `n - 1 == d * 2^s` and `d` odd: `a^d mod n` is one, or
/// `a^(d * 2^i) mod n` is `n - 1` for some `i < s`.
pub open spec fn witness_passes(n: nat, d: nat, s: nat, a: nat) -> bool {
    ||| pow(a as int, d) % (n as int) == 1
    ||| exists|i: nat| i < s && pow(a as int, d * pow2(i)) % (n as int) == n - 1
}

#[verifier::external_type_specification]
#[verifier::external_body]
pub struct ExThreadRng(rand::rngs::ThreadRng);

/// Relies on `rand::thread_rng`: a handle to the thread-local random
/// number generator, seeded by the operating system.
#[verifier::external_body]
fn fresh_rng() -> rand::rngs::ThreadRng {
    rand::thread_rng()
}

/// Relies on `num_bigint`'s `RandBigInt::gen_biguint_below`: a random
/// value below the positive bound. Nothing more is assumed of the draw.
#[verifier::external_body]
fn random_below(rng: &mut rand::rngs::ThreadRng, bound: &Natural) -> (r: Vec<u8>)
    requires
        bound@ > 0,
    ensures
        bytes_value(r@) < bound@,
{
    let bi = num_bigint::BigUint::from_bytes_le(&bound.bytes);
    num_bigint::RandBigInt::gen_biguint_below(rng, &bi).to_bytes_le()
}

/// One Miller-Rabin round, deterministic in its arguments: whether
/// witness `a` leaves `n` a probable prime. `miller_rabin` draws the
/// witnesses at random and takes the conjunction of its rounds.
pub fn miller_rabin_round(n: &Natural, d: &Natural, s: usize, a: &Natural) -> (r: bool)
    requires
        n.wf(),
        d.wf(),
        a.wf(),
        n@ % 2 == 1,
        n@ >= 3,
        mr_decomp((n@ - 1) as nat, d@, s as nat),
    ensures
        r == witness_passes(n@, d@, s as nat, a@),
{
    proof {
        if s == 0 {
            lemma2_to64();
            assert(d@ * pow2(0) == d@) by (nonlinear_arith)
                requires
                    pow2(0) == 1,
            ;
            assert(false);
        }
    }
    let one = from_u64(1);
    let n1 = sub_exact(n, &one);
    let mut x = modpow_exact(a, d, n);
    if eq_u64(&x, 1) {
        return true;
    }
    if eq_nat(&x, &n1) {
        proof {
            lemma2_to64();
            assert(d@ * pow2(0) == d@) by (nonlinear_arith)
                requires
                    pow2(0) == 1,
            ;
            assert(pow(a@ as int, d@ * pow2(0)) % (n@ as int) == n@ - 1);
        }
        return true;
    }
    proof {
        lemma2_to64();
        assert(d@ * pow2(0) == d@) by (nonlinear_arith)
            requires
                pow2(0) == 1,
        ;
        assert(forall|i: nat| i < 1 ==> pow(a@ as int, d@ * pow2(i)) % (n@ as int) != n@ - 1);
    }
    let mut j: usize = 1;
    while j < s
        invariant
            1 <= j <= s,
            n.wf(),
            n@ >= 3,
            d@ % 2 == 1,
            n1@ == n@ - 1,
            n1.wf(),
            x.wf(),
            x@ == pow(a@ as int, d@ * pow2((j - 1) as nat)) % (n@ as int),
            pow(a@ as int, d@) % (n@ as int) != 1,
            forall|i: nat| i < j ==> pow(a@ as int, d@ * pow2(i)) % (n@ as int) != n@ - 1,
        decreases s - j,
    {
        let ghost xo = d@ * pow2((j - 1) as nat);
        proof {
            lemma_pow_mod_square(a@ as int, xo, n@ as int);
            lemma_pow2_adds((j - 1) as nat, 1);
            lemma2_to64();
            assert(2 * xo == d@ * pow2(j as nat)) by (nonlinear_arith)
                requires
                    xo == d@ * pow2((j - 1) as nat),
                    pow2(j as nat) == pow2((j - 1) as nat) * 2,
            ;
        }
        x = mul_rem(&x, &x, n);
        if eq_nat(&x, &n1) {
            proof {
                assert(pow(a@ as int, d@ * pow2(j as nat)) % (n@ as int) == n@ - 1);
            }
            return true;
        }
        j += 1;
    }
    proof {
        assert(!witness_passes(n@, d@, s as nat, a@));
    }
    false
}

/// The Miller-Rabin test with `reps` randomly drawn witnesses: `false`
/// as soon as one witness shows `n` composite, `true` when every round
/// passes. Small cases are settled without randomness: numbers below
/// two and even numbers above two are not prime, two and three are.
pub fn miller_rabin(n: &Natural, reps: i32) -> (r: bool)
    requires
        n.wf(),
        8 * n.bytes@.len() <= usize::MAX,
    ensures
        n@ < 2 ==> r == false,
        n@ == 2 || n@ == 3 ==> r == true,
        n@ > 3 && n@ % 2 == 0 ==> r == false,
        r ==> n@ == 2 || n@ == 3 || (n@ >= 5 && n@ % 2 == 1),
{
    if lt_u64(n, 2) {
        return false;
    }
    if eq_u64(n, 2) || eq_u64(n, 3) {
        return true;
    }
    if is_even(n) {
        return false;
    }
    let one = from_u64(1);
    let n1 = sub_exact(n, &one);
    proof {
        lemma2_to64();
        lemma_mod_one(n1@);
        lemma_value_bound(n.bytes@);
        lemma_canonical_len(n1.bytes@, n.bytes@.len());
    }
    let mut s: usize = 0;
    while !bit(&n1, s)
        invariant
            n1.wf(),
            n1@ == n@ - 1,
            n@ >= 5,
            n1@ % pow2(s as nat) == 0,
            pow2(s as nat) <= n1@,
            s <= 8 * n1.bytes@.len(),
            8 * n1.bytes@.len() <= usize::MAX,
        decreases 8 * n1.bytes@.len() - s,
    {
        proof {
            let p = pow2(s as nat);
            lemma_pow2_pos(s as nat);
            let q = n1@ / p;
            lemma_fundamental_div_mod(n1@ as int, p as int);
            lemma_fundamental_div_mod(q as int, 2);
            assert(q % 2 == 0);
            assert(n1@ == p * (2 * (q / 2)));
            assert(p * (2 * (q / 2)) == (p * 2) * (q / 2)) by {
                lemma_mul_is_associative(p as int, 2, (q / 2) as int);
            }
            lemma_pow2_adds(s as nat, 1);
            lemma2_to64();
            assert(p * 2 == pow2(s as nat + 1)) by {
                lemma_mul_is_commutative(p as int, 2);
            }
            assert(q / 2 >= 1) by (nonlinear_arith)
                requires
                    n1@ == pow2(s as nat + 1) * (q / 2),
                    n1@ >= 1,
            ;
            assert(pow2(s as nat + 1) <= n1@) by (nonlinear_arith)
                requires
                    n1@ == pow2(s as nat + 1) * (q / 2),
                    q / 2 >= 1,
                    pow2(s as nat + 1) >= 1,
            ;
            lemma_mod_multiples_basic((q / 2) as int, pow2(s as nat + 1) as int);
            assert(n1@ == (q / 2) * pow2(s as nat + 1)) by {
                lemma_mul_is_commutative(pow2(s as nat + 1) as int, (q / 2) as int);
            }
            lemma_value_bound(n1.bytes@);
            if 8 * n1.bytes@.len() < s as nat + 1 {
                if 8 * n1.bytes@.len() < s as nat {
                    lemma_pow2_strictly_increases(8 * n1.bytes@.len(), s as nat);
                }
                lemma_pow2_strictly_increases(8 * n1.bytes@.len(), s as nat + 1);
                assert(false);
            }
        }
        s += 1;
    }
    let d = shr_exact(&n1, s);
    proof {
        lemma_pow2_pos(s as nat);
        lemma_fundamental_div_mod(n1@ as int, pow2(s as nat) as int);
        assert(n1@ == d@ * pow2(s as nat)) by {
            lemma_mul_is_commutative(pow2(s as nat) as int, d@ as int);
        }
        assert(d@ % 2 == 1);
        assert(mr_decomp((n@ - 1) as nat, d@, s as nat));
    }
    let three = from_u64(3);
    let bound = sub_exact(n, &three);
    let two = from_u64(2);
    let mut rng = fresh_rng();
    let mut rep: i32 = 0;
    while rep < reps
        invariant
            n.wf(),
            d.wf(),
            n@ >= 5,
            n@ % 2 == 1,
            mr_decomp((n@ - 1) as nat, d@, s as nat),
            bound@ == n@ - 3,
            two@ == 2,
        decreases reps - rep,
    {
        let rb = random_below(&mut rng, &bound);
        let rv = from_bytes(&rb);
        let a = add_exact(&rv, &two);
        if !miller_rabin_round(n, &d, s, &a) {
            return false;
        }
        rep += 1;
    }
    true
}

/// The safe-prime test: `n` is a probable safe prime when both `n` and
/// its Sophie-Germain companion `(n - 1) / 2` pass the Miller-Rabin
/// test.
pub fn miller_rabin_safe(n: &Natural, reps: i32) -> (r: bool)
    requires
        n.wf(),
        8 * n.bytes@.len() <= usize::MAX,
    ensures
        n@ < 5 ==> r == false,
        r ==> n@ >= 5 && n@ % 2 == 1,
        r ==> (n@ - 1) / 2 == 2 || (n@ - 1) / 2 == 3 || ((n@ - 1) / 2 >= 5 && ((n@ - 1) / 2)
            % 2 == 1),
{
    if !miller_rabin(n, reps) {
        return false;
    }
    let one = from_u64(1);
    let n1 = sub_exact(n, &one);
    let q = shr_exact(&n1, 1);
    proof {
        lemma2_to64();
        lemma_value_bound(n.bytes@);
        assert(q@ <= n1@) by {
            lemma_pow2_pos(1);
            vstd::arithmetic::div_mod::lemma_div_nonincreasing(n1@ as int, pow2(1) as int);
        }
        lemma_canonical_len(q.bytes@, n.bytes@.len());
        if n@ == 2 {
            assert(q@ == 0) by {
                vstd::arithmetic::div_mod::lemma_basic_div(1, 2);
            }
        }
        if n@ == 3 {
            assert(q@ == 1) by {
                lemma_fundamental_div_mod(2, 2);
            }
        }
    }
    miller_rabin(&q, reps)
}

} // verus!
