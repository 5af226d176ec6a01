//! Arbitrary-precision natural numbers, stored as little-endian bytes,
//! together with the trusted bridge to the `num-bigint` crate that
//! supplies the ring operations on them.

use vstd::arithmetic::div_mod::{
    lemma_div_denominator, lemma_fundamental_div_mod_converse, lemma_hoist_over_denominator,
    lemma_mod_multiples_vanish,
};
use vstd::arithmetic::mul::{
    lemma_mul_inequality, lemma_mul_is_associative, lemma_mul_is_commutative,
    lemma_mul_is_distributive_add,
};
use vstd::arithmetic::power::pow;
use vstd::arithmetic::power2::{lemma2_to64, lemma_pow2_adds, lemma_pow2_pos, pow2};
use vstd::prelude::*;

verus! {

/// The value of a little-endian sequence of base-256 digits.
pub open spec fn bytes_value(s: Seq<u8>) -> nat
    decreases s.len(),
{
    if s.len() == 0 {
        0
    } else {
        s[0] as nat + 256 * bytes_value(s.skip(1))
    }
}

/// A digit sequence is canonical when it carries no leading zero byte, so
/// that every natural number has exactly one canonical representation.
pub open spec fn canonical(s: Seq<u8>) -> bool {
    s.len() == 0 || s[s.len() - 1] != 0
}

/// A non-negative arbitrary-precision integer: the little-endian bytes of
/// its value, in canonical (trimmed) form.
#[derive(Debug)]
pub struct Natural {
    pub bytes: Vec<u8>,
}

impl View for Natural {
    type V = nat;

    open spec fn view(&self) -> nat {
        bytes_value(self.bytes@)
    }
}

impl Natural {
    /// Well-formed: the stored bytes are canonical.
    pub open spec fn wf(&self) -> bool {
        canonical(self.bytes@)
    }
}

/// The value of a byte sequence is below 2^(8 * length).
pub proof fn lemma_value_bound(s: Seq<u8>)
    ensures
        bytes_value(s) < pow2(8 * s.len()),
    decreases s.len(),
{
    lemma2_to64();
    if s.len() == 0 {
    } else {
        lemma_value_bound(s.skip(1));
        lemma_pow2_adds(8, 8 * (s.len() - 1) as nat);
        let t = bytes_value(s.skip(1));
        let p = pow2(8 * (s.len() - 1) as nat);
        assert(t <= p - 1);
        lemma_mul_inequality(t as int, p - 1, 256);
        lemma_mul_is_commutative(256, p - 1);
        lemma_mul_is_distributive_add(256, p as int, -1);
        assert(256 * t <= 256 * p - 256);
        assert(bytes_value(s) < 256 * p);
        assert(256 * p == pow2(8 * s.len())) by {
            lemma_mul_is_commutative(256, p as int);
        }
    }
}

/// A canonical, non-empty byte sequence has a value of at least
/// 2^(8 * (length - 1)): its top byte contributes.
pub proof fn lemma_value_lower_bound(s: Seq<u8>)
    requires
        s.len() > 0,
        canonical(s),
    ensures
        bytes_value(s) >= pow2(8 * (s.len() - 1) as nat),
    decreases s.len(),
{
    lemma2_to64();
    if s.len() == 1 {
        assert(bytes_value(s) >= 1);
    } else {
        let t = s.skip(1);
        assert(t[t.len() - 1] == s[s.len() - 1]);
        lemma_value_lower_bound(t);
        lemma_pow2_adds(8, 8 * (s.len() - 2) as nat);
        let p = pow2(8 * (s.len() - 2) as nat);
        lemma_mul_inequality(p as int, bytes_value(t) as int, 256);
        lemma_mul_is_commutative(256, p as int);
        lemma_mul_is_commutative(256, bytes_value(t) as int);
        assert(256 * bytes_value(t) >= 256 * p);
    }
}

/// Appending a byte on the most-significant end adds its weighted value.
pub proof fn lemma_value_snoc(s: Seq<u8>, x: u8)
    ensures
        bytes_value(s.push(x)) == bytes_value(s) + x as nat * pow2(8 * s.len()),
    decreases s.len(),
{
    lemma2_to64();
    if s.len() == 0 {
        assert(s.push(x).skip(1) =~= Seq::<u8>::empty());
        assert(s.push(x)[0] == x);
        assert(bytes_value(Seq::<u8>::empty()) == 0);
        assert(bytes_value(s.push(x)) == x as nat + 256 * 0);
        assert(pow2(8 * s.len()) == 1);
        assert(x as nat * 1 == x as nat);
    } else {
        assert(s.push(x).skip(1) =~= s.skip(1).push(x));
        lemma_value_snoc(s.skip(1), x);
        lemma_pow2_adds(8, 8 * (s.len() - 1) as nat);
        let p = pow2(8 * (s.len() - 1) as nat);
        let t = bytes_value(s.skip(1));
        assert(bytes_value(s.push(x)) == s[0] as nat + 256 * (t + x as nat * p));
        lemma_mul_is_distributive_add(256, t as int, (x as nat * p) as int);
        lemma_mul_is_associative(256, x as int, p as int);
        lemma_mul_is_commutative(256, x as int);
        lemma_mul_is_associative(x as int, 256, p as int);
        assert(256 * (x as nat * p) == x as nat * (256 * p));
        assert(256 * p == pow2(8 * s.len()));
        assert(bytes_value(s.push(x)) == s[0] as nat + 256 * t + x as nat * pow2(8 * s.len()));
        assert(bytes_value(s) == s[0] as nat + 256 * t);
    }
}

/// The head byte and the tail are the remainder and quotient of the value
/// by 256.
pub proof fn lemma_value_head(s: Seq<u8>)
    requires
        s.len() > 0,
    ensures
        bytes_value(s) % 256 == s[0] as nat,
        bytes_value(s) / 256 == bytes_value(s.skip(1)),
{
    lemma_fundamental_div_mod_converse(
        bytes_value(s) as int,
        256,
        bytes_value(s.skip(1)) as int,
        s[0] as int,
    );
}

/// Canonical byte sequences of equal value are equal: the representation
/// is unique.
pub proof fn lemma_value_injective(s: Seq<u8>, t: Seq<u8>)
    requires
        canonical(s),
        canonical(t),
        bytes_value(s) == bytes_value(t),
    ensures
        s == t,
    decreases s.len(),
{
    lemma2_to64();
    if s.len() == 0 && t.len() == 0 {
        assert(s =~= t);
    } else if s.len() == 0 {
        lemma_value_lower_bound(t);
        lemma_pow2_pos(8 * (t.len() - 1) as nat);
        assert(false);
    } else if t.len() == 0 {
        lemma_value_lower_bound(s);
        lemma_pow2_pos(8 * (s.len() - 1) as nat);
        assert(false);
    } else {
        lemma_value_head(s);
        lemma_value_head(t);
        assert(s[0] == t[0]);
        let s1 = s.skip(1);
        let t1 = t.skip(1);
        assert(canonical(s1)) by {
            if s1.len() > 0 {
                assert(s1[s1.len() - 1] == s[s.len() - 1]);
            }
        }
        assert(canonical(t1)) by {
            if t1.len() > 0 {
                assert(t1[t1.len() - 1] == t[t.len() - 1]);
            }
        }
        lemma_value_injective(s1, t1);
        assert(forall|i: int| 1 <= i < s.len() ==> #[trigger] s[i] == s1[i - 1]);
        assert(forall|i: int| 1 <= i < t.len() ==> #[trigger] t[i] == t1[i - 1]);
        assert(s =~= t);
    }
}

/// A canonical byte sequence is no longer than any byte count whose
/// range holds its value.
pub proof fn lemma_canonical_len(s: Seq<u8>, k: nat)
    requires
        canonical(s),
        bytes_value(s) < pow2(8 * k),
    ensures
        s.len() <= k,
{
    if s.len() > k {
        lemma_value_lower_bound(s);
        if 8 * k < 8 * (s.len() - 1) as nat {
            vstd::arithmetic::power2::lemma_pow2_strictly_increases(
                8 * k,
                8 * (s.len() - 1) as nat,
            );
        }
        assert(false);
    }
}

/// Builds a natural number from little-endian bytes, trimming leading
/// zero bytes into canonical form.
pub fn from_bytes(bytes: &Vec<u8>) -> (r: Natural)
    ensures
        r@ == bytes_value(bytes@),
        r.wf(),
{
    let mut n: usize = bytes.len();
    proof {
        assert(bytes@.take(bytes@.len() as int) =~= bytes@);
    }
    while n > 0 && *bytes.get(n - 1).unwrap() == 0
        invariant
            n <= bytes@.len(),
            bytes_value(bytes@.take(n as int)) == bytes_value(bytes@),
        decreases n,
    {
        proof {
            let cur = bytes@.take(n as int);
            assert(cur.take(n - 1) =~= bytes@.take(n - 1));
            assert(cur =~= cur.take(n - 1).push(bytes@[n - 1]));
            lemma_value_snoc(cur.take(n - 1), bytes@[n - 1]);
        }
        n -= 1;
    }
    let mut v: Vec<u8> = Vec::new();
    let mut i: usize = 0;
    while i < n
        invariant
            i <= n,
            n <= bytes@.len(),
            v@ =~= bytes@.take(i as int),
        decreases n - i,
    {
        v.push(*bytes.get(i).unwrap());
        i += 1;
    }
    let r = Natural { bytes: v };
    proof {
        assert(r.bytes@ =~= bytes@.take(n as int));
        if n > 0 {
            assert(r.bytes@[n - 1] == bytes@[n - 1]);
        }
    }
    r
}

/// The canonical form of a small number: no byte for zero, little-endian
/// bytes otherwise.
pub fn from_u64(x: u64) -> (r: Natural)
    ensures
        r@ == x as nat,
        r.wf(),
{
    let mut bytes: Vec<u8> = Vec::new();
    let mut rest: u64 = x;
    proof {
        lemma2_to64();
        assert(bytes@ =~= Seq::<u8>::empty());
        assert(bytes_value(bytes@) == 0);
        assert(pow2(8 * bytes@.len()) == 1);
        assert(rest as nat * 1 == rest as nat);
    }
    while rest > 0
        invariant
            bytes_value(bytes@) + rest as nat * pow2(8 * bytes@.len()) == x as nat,
            rest == 0 ==> canonical(bytes@),
        decreases rest,
    {
        let b: u8 = (rest % 256) as u8;
        let next: u64 = rest / 256;
        proof {
            lemma_value_snoc(bytes@, b);
            lemma_pow2_adds(8 * bytes@.len(), 8);
            lemma2_to64();
            let p = pow2(8 * bytes@.len());
            assert(rest as nat * p == next as nat * (p * 256) + b as nat * p)
                by (nonlinear_arith)
            requires
                rest as nat == next as nat * 256 + b as nat,
            ;
            assert(p * 256 == pow2(8 * (bytes@.len() + 1))) by {
                lemma_mul_is_commutative(p as int, 256);
            }
            if next == 0 {
                assert(b as nat == rest as nat);
                assert(b != 0);
            }
        }
        bytes.push(b);
        rest = next;
        proof {
            if rest == 0 {
                assert(bytes@[bytes@.len() - 1] == b);
            }
        }
    }
    Natural { bytes }
}

/// Hands the little-endian bytes of the value back.
pub fn to_bytes(n: &Natural) -> (r: Vec<u8>)
    ensures
        r@ == n.bytes@,
        bytes_value(r@) == n@,
{
    let mut v: Vec<u8> = Vec::new();
    let mut i: usize = 0;
    while i < n.bytes.len()
        invariant
            i <= n.bytes@.len(),
            v@ =~= n.bytes@.take(i as int),
        decreases n.bytes@.len() - i,
    {
        v.push(*n.bytes.get(i).unwrap());
        i += 1;
    }
    proof {
        assert(v@ =~= n.bytes@);
    }
    v
}

impl Clone for Natural {
    /// An independent copy with the same value.
    fn clone(&self) -> (r: Self)
        ensures
            r.bytes@ == self.bytes@,
            r@ == self@,
            r.wf() == self.wf(),
    {
        let bytes = to_bytes(self);
        Natural { bytes }
    }
}

/// Bit `i` of a natural number.
pub open spec fn nth_bit(v: nat, i: nat) -> bool {
    (v / pow2(i)) % 2 == 1
}

/// Bit `8q + r` of a byte sequence's value is bit `r` of byte `q`.
pub proof fn lemma_nth_bit(s: Seq<u8>, q: nat, r: nat)
    requires
        q < s.len(),
        r < 8,
    ensures
        (bytes_value(s) / pow2(8 * q + r)) % 2 == ((s[q as int] as nat) / pow2(r)) % 2,
    decreases q,
{
    lemma2_to64();
    let v = bytes_value(s);
    let hi = bytes_value(s.skip(1));
    if q == 0 {
        lemma_pow2_adds(r, (8 - r) as nat);
        let pr = pow2(r);
        let pc = pow2((8 - r) as nat);
        lemma_pow2_pos(r);
        lemma_pow2_pos((8 - r) as nat);
        assert(v == s[0] as nat + pr * pc * hi);
        assert(pr * pc * hi == pr * (pc * hi)) by {
            lemma_mul_is_associative(pr as int, pc as int, hi as int);
        }
        lemma_hoist_over_denominator(s[0] as int, (pc * hi) as int, pr);
        assert(pr * (pc * hi) == (pc * hi) * pr) by {
            lemma_mul_is_commutative(pr as int, (pc * hi) as int);
        }
        assert(v == s[0] as nat + (pc * hi) * pr);
        assert(v / pr == s[0] as nat / pr + pc * hi);
        assert(pc * hi == 2 * (pow2((7 - r) as nat) * hi)) by {
            lemma_pow2_adds(1, (7 - r) as nat);
            lemma_mul_is_associative(2, pow2((7 - r) as nat) as int, hi as int);
        }
        lemma_mod_multiples_vanish(
            (pow2((7 - r) as nat) * hi) as int,
            (s[0] as nat / pr) as int,
            2,
        );
    } else {
        lemma_value_head(s);
        let d = pow2(8 * (q - 1) as nat + r);
        lemma_pow2_adds(8, 8 * (q - 1) as nat + r);
        lemma_pow2_pos(8 * (q - 1) as nat + r);
        lemma_div_denominator(v as int, 256, d as int);
        assert((v / 256) / d == v / (256 * d));
        assert(256 * d == pow2(8 * q + r));
        lemma_nth_bit(s.skip(1), (q - 1) as nat, r);
        assert(s.skip(1)[q - 1] == s[q as int]);
    }
}

/// Tests bit `i` (counting from the least significant bit).
pub fn bit(n: &Natural, i: usize) -> (res: bool)
    ensures
        res == nth_bit(n@, i as nat),
{
    let q = i / 8;
    let r = i % 8;
    if q >= n.bytes.len() {
        proof {
            lemma_value_bound(n.bytes@);
            lemma_pow2_pos(i as nat);
            if 8 * n.bytes@.len() < i as nat {
                vstd::arithmetic::power2::lemma_pow2_strictly_increases(
                    8 * n.bytes@.len(),
                    i as nat,
                );
            }
            vstd::arithmetic::div_mod::lemma_basic_div(n@ as int, pow2(i as nat) as int);
        }
        false
    } else {
        let b = *n.bytes.get(q).unwrap();
        let sh: u8 = b >> (r as u8);
        let res = (sh & 1) == 1;
        proof {
            vstd::bits::lemma_u8_shr_is_div(b, r as u8);
            assert(sh & 1 == sh % 2) by (bit_vector);
            lemma_nth_bit(n.bytes@, q as nat, r as nat);
            assert(8 * (q as nat) + (r as nat) == i as nat);
        }
        res
    }
}

/// Whether the value is even.
pub fn is_even(n: &Natural) -> (res: bool)
    ensures
        res == (n@ % 2 == 0),
{
    if n.bytes.len() == 0 {
        true
    } else {
        let b = *n.bytes.get(0).unwrap();
        proof {
            let hi = bytes_value(n.bytes@.skip(1));
            assert(256 * hi == 2 * (128 * hi)) by {
                lemma_mul_is_associative(2, 128, hi as int);
            }
            lemma_mod_multiples_vanish(128 * hi as int, b as int, 2);
        }
        b % 2 == 0
    }
}

/// The value as a `u64`, if it fits.
pub fn to_u64(n: &Natural) -> (res: Option<u64>)
    requires
        n.wf(),
    ensures
        match res {
            Some(v) => v as nat == n@,
            None => n@ > u64::MAX as nat,
        },
{
    if n.bytes.len() > 8 {
        proof {
            lemma_value_lower_bound(n.bytes@);
            lemma2_to64();
            if 64 < 8 * (n.bytes@.len() - 1) as nat {
                vstd::arithmetic::power2::lemma_pow2_strictly_increases(
                    64,
                    8 * (n.bytes@.len() - 1) as nat,
                );
            }
        }
        None
    } else {
        let mut acc: u64 = 0;
        let mut i: usize = 0;
        proof {
            lemma2_to64();
            vstd::arithmetic::power2::lemma2_to64_rest();
            assert(n.bytes@.take(0) =~= Seq::<u8>::empty());
        }
        while i < n.bytes.len()
            invariant
                i <= n.bytes@.len(),
                n.bytes@.len() <= 8,
                acc as nat == bytes_value(n.bytes@.take(i as int)),
                (acc as nat) < pow2(8 * i as nat),
            decreases n.bytes@.len() - i,
        {
            let b = *n.bytes.get(i).unwrap();
            proof {
                lemma2_to64();
                vstd::arithmetic::power2::lemma2_to64_rest();
                assert(pow2(8 * i as nat) <= pow2(56)) by {
                    if (8 * i as nat) < 56 {
                        vstd::arithmetic::power2::lemma_pow2_strictly_increases(
                            8 * i as nat,
                            56,
                        );
                    }
                }
                assert(b as int * pow2(8 * i as nat) <= 255 * pow2(56)) by {
                    lemma_mul_inequality(b as int, 255, pow2(8 * i as nat) as int);
                    vstd::arithmetic::mul::lemma_mul_left_inequality(
                        255,
                        pow2(8 * i as nat) as int,
                        pow2(56) as int,
                    );
                }
                vstd::bits::lemma_u64_shl_is_mul(b as u64, (8 * i) as u64);
                lemma_value_snoc(n.bytes@.take(i as int), b);
                assert(n.bytes@.take(i as int).push(b) =~= n.bytes@.take(i as int + 1));
                let p = pow2(8 * i as nat);
                lemma_pow2_adds(8 * i as nat, 8);
                assert(b as nat * p <= 255 * p) by {
                    lemma_mul_inequality(b as int, 255, p as int);
                    lemma_mul_is_commutative(b as int, p as int);
                    lemma_mul_is_commutative(255, p as int);
                }
                assert(256 * p == pow2(8 * (i + 1) as nat)) by {
                    lemma_mul_is_commutative(256, p as int);
                }
            }
            let w: u64 = (b as u64) << ((8 * i) as u64);
            acc = acc + w;
            i += 1;
        }
        proof {
            assert(n.bytes@.take(n.bytes@.len() as int) =~= n.bytes@);
        }
        Some(acc)
    }
}

/// Whether the value is below a small bound.
pub fn lt_u64(n: &Natural, c: u64) -> (res: bool)
    requires
        n.wf(),
    ensures
        res == (n@ < c as nat),
{
    match to_u64(n) {
        Some(v) => v < c,
        None => false,
    }
}

/// Whether the value equals a small constant.
pub fn eq_u64(n: &Natural, c: u64) -> (res: bool)
    requires
        n.wf(),
    ensures
        res == (n@ == c as nat),
{
    match to_u64(n) {
        Some(v) => v == c,
        None => false,
    }
}

/// Whether two well-formed naturals have the same value.
pub fn eq_nat(a: &Natural, b: &Natural) -> (res: bool)
    requires
        a.wf(),
        b.wf(),
    ensures
        res == (a@ == b@),
{
    if a.bytes.len() != b.bytes.len() {
        proof {
            if a@ == b@ {
                lemma_value_injective(a.bytes@, b.bytes@);
            }
        }
        return false;
    }
    let mut i: usize = 0;
    while i < a.bytes.len()
        invariant
            a.bytes@.len() == b.bytes@.len(),
            i <= a.bytes@.len(),
            a.wf(),
            b.wf(),
            forall|j: int| 0 <= j < i ==> a.bytes@[j] == b.bytes@[j],
        decreases a.bytes@.len() - i,
    {
        if *a.bytes.get(i).unwrap() != *b.bytes.get(i).unwrap() {
            proof {
                if a@ == b@ {
                    lemma_value_injective(a.bytes@, b.bytes@);
                }
            }
            return false;
        }
        i += 1;
    }
    proof {
        assert(a.bytes@ =~= b.bytes@);
    }
    true
}

/// Relies on `num_bigint::BigUint`: `from_bytes_le` reads little-endian
/// bytes, `Mul` computes the exact product, and `to_bytes_le` writes the
/// product back as little-endian bytes.
#[verifier::external_body]
pub(crate) fn mul_bytes(a: &Natural, b: &Natural) -> (r: Vec<u8>)
    ensures
        bytes_value(r@) == a@ * b@,
{
    let ai = num_bigint::BigUint::from_bytes_le(&a.bytes);
    let bi = num_bigint::BigUint::from_bytes_le(&b.bytes);
    (ai * bi).to_bytes_le()
}

/// Relies on `num_bigint::BigUint`'s `Rem`: the remainder of Euclidean
/// division, which panics only on a zero modulus.
#[verifier::external_body]
pub(crate) fn rem_bytes(a: &Natural, m: &Natural) -> (r: Vec<u8>)
    requires
        m@ > 0,
    ensures
        bytes_value(r@) == a@ % m@,
{
    let ai = num_bigint::BigUint::from_bytes_le(&a.bytes);
    let mi = num_bigint::BigUint::from_bytes_le(&m.bytes);
    (ai % mi).to_bytes_le()
}

/// Relies on `num_bigint::BigUint`'s `Sub`: the exact difference, which
/// panics only when the subtrahend exceeds the minuend.
#[verifier::external_body]
pub(crate) fn sub_bytes(a: &Natural, b: &Natural) -> (r: Vec<u8>)
    requires
        b@ <= a@,
    ensures
        bytes_value(r@) == a@ - b@,
{
    let ai = num_bigint::BigUint::from_bytes_le(&a.bytes);
    let bi = num_bigint::BigUint::from_bytes_le(&b.bytes);
    (ai - bi).to_bytes_le()
}

/// Relies on `num_bigint::BigUint`'s `Add`: the exact sum.
#[verifier::external_body]
pub(crate) fn add_bytes(a: &Natural, b: &Natural) -> (r: Vec<u8>)
    ensures
        bytes_value(r@) == a@ + b@,
{
    let ai = num_bigint::BigUint::from_bytes_le(&a.bytes);
    let bi = num_bigint::BigUint::from_bytes_le(&b.bytes);
    (ai + bi).to_bytes_le()
}

/// Relies on `num_bigint::BigUint`'s `Shr<usize>`: a right shift divides
/// by the power of two, rounding down.
#[verifier::external_body]
pub(crate) fn shr_bytes(a: &Natural, k: usize) -> (r: Vec<u8>)
    ensures
        bytes_value(r@) == a@ / pow2(k as nat),
{
    let ai = num_bigint::BigUint::from_bytes_le(&a.bytes);
    (ai >> k).to_bytes_le()
}

/// The difference of two naturals, as a canonical natural.
pub fn sub_exact(a: &Natural, b: &Natural) -> (r: Natural)
    requires
        b@ <= a@,
    ensures
        r@ == a@ - b@,
        r.wf(),
{
    let v = sub_bytes(a, b);
    from_bytes(&v)
}

/// The sum of two naturals, as a canonical natural.
pub fn add_exact(a: &Natural, b: &Natural) -> (r: Natural)
    ensures
        r@ == a@ + b@,
        r.wf(),
{
    let v = add_bytes(a, b);
    from_bytes(&v)
}

/// The quotient of a natural by `2^k`, as a canonical natural.
pub fn shr_exact(a: &Natural, k: usize) -> (r: Natural)
    ensures
        r@ == a@ / pow2(k as nat),
        r.wf(),
{
    let v = shr_bytes(a, k);
    from_bytes(&v)
}

/// Relies on `num_bigint::BigUint::modpow`: `(self ^ exponent) %
/// modulus`, which panics only on a zero modulus.
#[verifier::external_body]
pub(crate) fn modpow_bytes(b: &Natural, e: &Natural, m: &Natural) -> (r: Vec<u8>)
    requires
        m@ > 0,
    ensures
        bytes_value(r@) == pow(b@ as int, e@) % (m@ as int),
{
    let bi = num_bigint::BigUint::from_bytes_le(&b.bytes);
    let ei = num_bigint::BigUint::from_bytes_le(&e.bytes);
    let mi = num_bigint::BigUint::from_bytes_le(&m.bytes);
    bi.modpow(&ei, &mi).to_bytes_le()
}

/// The modular power `b ^ e mod m`, computed by the big-integer
/// collaborator in one call.
pub fn modpow_exact(b: &Natural, e: &Natural, m: &Natural) -> (r: Natural)
    requires
        m@ > 0,
    ensures
        r@ == pow(b@ as int, e@) % (m@ as int),
        r.wf(),
{
    let v = modpow_bytes(b, e, m);
    from_bytes(&v)
}

/// The product of two naturals, as a canonical natural.
pub fn mul_exact(a: &Natural, b: &Natural) -> (r: Natural)
    ensures
        r@ == a@ * b@,
        r.wf(),
{
    let v = mul_bytes(a, b);
    from_bytes(&v)
}

/// The remainder of a natural modulo a positive natural.
pub fn rem_exact(a: &Natural, m: &Natural) -> (r: Natural)
    requires
        m@ > 0,
    ensures
        r@ == a@ % m@,
        r.wf(),
{
    let v = rem_bytes(a, m);
    from_bytes(&v)
}

/// The product of two naturals reduced modulo a positive natural.
pub fn mul_rem(a: &Natural, b: &Natural, m: &Natural) -> (r: Natural)
    requires
        m@ > 0,
    ensures
        r@ == (a@ * b@) % m@,
        r.wf(),
{
    let p = mul_exact(a, b);
    rem_exact(&p, m)
}

} // verus!
