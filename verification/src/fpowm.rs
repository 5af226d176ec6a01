//! Fixed-base modular exponentiation: a precomputed table of windowed
//! powers of one base modulo one modulus, reusable across many exponents,
//! plus an initialize-once cache holding a single such table.
//!
//! The table stores `entry[block][digit] = base ^ (digit * 2^(block * w))
//! mod modulus` for every `w`-bit digit, where `w` is the block width. An
//! exponent is cut into `w`-bit windows, and its power is the product of
//! one table entry per window. Exponents longer than the configured bit
//! length are handled exactly as well: the bits above the last block are
//! raised by ordinary square-and-multiply on the last block's unit entry.

use crate::modpow::{lemma_pow_mod_square, pow_mod};
use crate::natural::{
    bit, from_u64, mul_rem, nth_bit, rem_exact, shr_exact, to_u64, Natural,
};
use crate::GmpMEEError;
use vstd::arithmetic::div_mod::{
    lemma_breakdown, lemma_div_basics, lemma_fundamental_div_mod, lemma_mul_mod_noop,
    lemma_small_mod,
};
use vstd::arithmetic::mul::{
    lemma_mul_inequality, lemma_mul_is_commutative, lemma_mul_is_distributive_add_other_way,
};
use vstd::arithmetic::power::{
    lemma_pow0, lemma_pow1, lemma_pow_adds, lemma_pow_mod_noop, lemma_pow_multiplies, pow,
};
use vstd::arithmetic::power2::{
    lemma2_to64, lemma_pow2_adds, lemma_pow2_pos, lemma_pow2_strictly_increases, pow2,
};
use vstd::prelude::*;

verus! {

/// Error of the fixed-base table: a size parameter does not fit the
/// integer width the table's geometry needs.
#[derive(Debug, Clone, PartialEq, Eq)]
pub enum FPownError {
    /// The offending size parameter.
    ExponentCast { value: usize },
}

/// The largest accepted block width: a row holds `2^w` entries and is
/// indexed by a machine word, so `w` must stay below the word size.
pub const MAX_BLOCK_WIDTH: usize = 31;

/// The largest accepted exponent bit length, the signed 64-bit range
/// that classical implementations use for sizes.
pub const MAX_EXPONENT_BITLEN: u64 = 0x7fff_ffff_ffff_ffff;

/// One row of precomputed powers: entry `d` is
/// `b ^ (d * 2^shift) mod m`, for every `w`-bit digit `d`.
pub open spec fn row_ok(row: Seq<Natural>, b: nat, shift: nat, w: nat, m: nat) -> bool {
    &&& row.len() == pow2(w)
    &&& forall|d: int|
        0 <= d < row.len() ==> (#[trigger] row[d]).wf() && row[d]@ == pow(
            b as int,
            d as nat * pow2(shift),
        ) % (m as int)
}

/// A precomputed table of windowed powers of one base modulo one
/// modulus. The geometry (`block_width`, `exponent_bitlen`, the modulus)
/// is fixed at construction; the base can be exchanged by `precomp`
/// without reallocating the geometry.
#[derive(Debug)]
pub struct FPowmTable {
    pub modulus: Natural,
    pub block_width: usize,
    pub exponent_bitlen: usize,
    pub base: Option<Natural>,
    pub table: Vec<Vec<Natural>>,
}

impl FPowmTable {
    /// The number of `block_width`-bit windows covering
    /// `exponent_bitlen` bits.
    pub open spec fn blocks(&self) -> nat {
        self.exponent_bitlen as nat / self.block_width as nat + if self.exponent_bitlen as nat
            % self.block_width as nat == 0 {
            0nat
        } else {
            1nat
        }
    }

    /// The fixed part of the table: sizes in range and a modulus above
    /// one.
    pub open spec fn geometry_wf(&self) -> bool {
        &&& 1 <= self.block_width <= MAX_BLOCK_WIDTH
        &&& 1 <= self.exponent_bitlen <= MAX_EXPONENT_BITLEN
        &&& self.modulus@ > 1
        &&& self.modulus.wf()
    }

    /// Whether a base has been precomputed.
    pub open spec fn has_base(&self) -> bool {
        self.base is Some
    }

    /// The precomputed base's value (zero before any precomputation).
    pub open spec fn base_value(&self) -> nat {
        match self.base {
            Some(b) => b@,
            None => 0,
        }
    }

    /// Well-formed: the geometry is in range, and either no base is set
    /// and the table is empty, or every entry holds the windowed power
    /// of the base that its position stands for.
    pub open spec fn wf(&self) -> bool {
        &&& self.geometry_wf()
        &&& match self.base {
            Some(b) => {
                &&& b.wf()
                &&& self.table@.len() == self.blocks()
                &&& forall|bi: int|
                    0 <= bi < self.table@.len() ==> row_ok(
                        #[trigger] self.table@[bi]@,
                        b@,
                        bi as nat * self.block_width as nat,
                        self.block_width as nat,
                        self.modulus@,
                    )
            },
            None => self.table@.len() == 0,
        }
    }
}

/// The window count `ceil(l / w)` covers `l` bits and not one window
/// more: the last window starts below `l`.
pub proof fn lemma_blocks_bound(l: nat, w: nat)
    requires
        w >= 1,
        l >= 1,
    ensures
        l / w + (if l % w == 0 {
            0nat
        } else {
            1nat
        }) >= 1,
        (l / w + (if l % w == 0 {
            0nat
        } else {
            1nat
        }) - 1) * w < l,
        l <= (l / w + (if l % w == 0 {
            0nat
        } else {
            1nat
        })) * w,
{
    lemma_fundamental_div_mod(l as int, w as int);
    let q = l as int / w as int;
    let r = l as int % w as int;
    if r == 0 {
        assert(q >= 1) by (nonlinear_arith)
            requires
                l as int == w as int * q + r,
                r == 0,
                l >= 1,
                w >= 1,
                q >= 0,
        ;
        assert((q - 1) * w < l && l <= q * w) by (nonlinear_arith)
            requires
                l as int == w as int * q + r,
                r == 0,
                w >= 1,
                q >= 1,
        ;
    } else {
        assert(q * w < l && l <= (q + 1) * w) by (nonlinear_arith)
            requires
                l as int == w as int * q + r,
                0 < r < w as int,
        ;
    }
}

/// Any number modulo one vanishes.
pub proof fn lemma_mod_one(x: nat)
    ensures
        x % 1 == 0,
{
    lemma_fundamental_div_mod(x as int, 1);
    lemma_div_basics(x as int);
}

impl FPowmTable {
    /// Allocates the table geometry without a base; entries are filled
    /// by a later `precomp`. A block width the row index cannot carry,
    /// or a bit length beyond the signed 64-bit range, is a cast error.
    pub fn init(modulus: &Natural, block_width: usize, exponent_bitlen: usize) -> (r: Result<
        FPowmTable,
        GmpMEEError,
    >)
        requires
            modulus@ > 1,
            modulus.wf(),
            block_width >= 1,
            exponent_bitlen >= 1,
        ensures
            match r {
                Ok(t) => {
                    &&& block_width <= MAX_BLOCK_WIDTH
                    &&& exponent_bitlen <= MAX_EXPONENT_BITLEN
                    &&& t.wf()
                    &&& !t.has_base()
                    &&& t.block_width == block_width
                    &&& t.exponent_bitlen == exponent_bitlen
                    &&& t.modulus@ == modulus@
                },
                Err(e) => {
                    &&& block_width > MAX_BLOCK_WIDTH || exponent_bitlen > MAX_EXPONENT_BITLEN
                    &&& e == (GmpMEEError::FPowmParameters(FPownError::ExponentCast {
                        value: if block_width > MAX_BLOCK_WIDTH {
                            block_width
                        } else {
                            exponent_bitlen
                        },
                    }))
                },
            },
    {
        if block_width > MAX_BLOCK_WIDTH {
            return Err(GmpMEEError::FPowmParameters(FPownError::ExponentCast {
                value: block_width,
            }));
        }
        if exponent_bitlen as u64 > MAX_EXPONENT_BITLEN as u64 {
            return Err(GmpMEEError::FPowmParameters(FPownError::ExponentCast {
                value: exponent_bitlen,
            }));
        }
        Ok(
            FPowmTable {
                modulus: modulus.clone(),
                block_width,
                exponent_bitlen,
                base: None,
                table: Vec::new(),
            },
        )
    }

    /// Allocates the geometry and immediately precomputes every entry
    /// for the given base.
    pub fn init_precomp(
        base: &Natural,
        modulus: &Natural,
        block_width: usize,
        exponent_bitlen: usize,
    ) -> (r: Result<FPowmTable, GmpMEEError>)
        requires
            base.wf(),
            modulus@ > 1,
            modulus.wf(),
            block_width >= 1,
            exponent_bitlen >= 1,
        ensures
            match r {
                Ok(t) => {
                    &&& block_width <= MAX_BLOCK_WIDTH
                    &&& exponent_bitlen <= MAX_EXPONENT_BITLEN
                    &&& t.wf()
                    &&& t.has_base()
                    &&& t.base_value() == base@
                    &&& t.block_width == block_width
                    &&& t.exponent_bitlen == exponent_bitlen
                    &&& t.modulus@ == modulus@
                },
                Err(e) => {
                    &&& block_width > MAX_BLOCK_WIDTH || exponent_bitlen > MAX_EXPONENT_BITLEN
                    &&& e == (GmpMEEError::FPowmParameters(FPownError::ExponentCast {
                        value: if block_width > MAX_BLOCK_WIDTH {
                            block_width
                        } else {
                            exponent_bitlen
                        },
                    }))
                },
            },
    {
        match Self::init(modulus, block_width, exponent_bitlen) {
            Ok(mut t) => {
                t.precomp(base);
                Ok(t)
            },
            Err(e) => Err(e),
        }
    }

    /// Recomputes every entry for a new base; the block width, the
    /// exponent bit length and the modulus stay as they are.
    pub fn precomp(&mut self, base: &Natural)
        requires
            old(self).wf(),
            base.wf(),
        ensures
            final(self).wf(),
            final(self).has_base(),
            final(self).base_value() == base@,
            final(self).block_width == old(self).block_width,
            final(self).exponent_bitlen == old(self).exponent_bitlen,
            final(self).modulus == old(self).modulus,
    {
        let w = self.block_width;
        let l = self.exponent_bitlen;
        let m = self.modulus.clone();
        let row_len: usize = 1usize << (w as u32);
        proof {
            lemma2_to64();
            assert(pow2(w as nat) < 0x100000000) by {
                if (w as nat) < 32 {
                    lemma_pow2_strictly_increases(w as nat, 32);
                }
            }
            vstd::bits::lemma_usize_shl_is_mul(1usize, w as usize);
            assert(row_len == pow2(w as nat));
            lemma_pow2_pos(w as nat);
        }
        proof {
            if w == 1 {
                lemma_mod_one(l as nat);
            } else {
                vstd::arithmetic::div_mod::lemma_div_decreases(l as int, w as int);
            }
        }
        let blocks = l / w + if l % w != 0 {
            1
        } else {
            0
        };
        let mut table: Vec<Vec<Natural>> = Vec::new();
        let mut g = rem_exact(base, &m);
        proof {
            lemma_pow1(base@ as int);
            assert(g@ == pow(base@ as int, pow2(0nat * w as nat)) % (m@ as int)) by {
                lemma2_to64();
            }
        }
        let mut bi: usize = 0;
        while bi < blocks
            invariant
                bi <= blocks,
                1 <= w <= MAX_BLOCK_WIDTH,
                m@ > 1,
                m.wf(),
                base.wf(),
                row_len == pow2(w as nat),
                table@.len() == bi,
                forall|b0: int|
                    0 <= b0 < bi ==> row_ok(
                        #[trigger] table@[b0]@,
                        base@,
                        b0 as nat * w as nat,
                        w as nat,
                        m@,
                    ),
                g.wf(),
                g@ == pow(base@ as int, pow2(bi as nat * w as nat)) % (m@ as int),
            decreases blocks - bi,
        {
            let ghost shift = bi as nat * w as nat;
            let mut row: Vec<Natural> = Vec::new();
            let one = from_u64(1);
            proof {
                lemma_pow2_pos(w as nat);
                lemma_small_mod(1, m@);
                lemma_pow0(base@ as int);
                assert(0nat * pow2(shift) == 0);
                assert(one@ == pow(base@ as int, 0nat * pow2(shift)) % (m@ as int));
            }
            row.push(one);
            let mut d: usize = 1;
            while d < row_len
                invariant
                    1 <= d <= row_len,
                    1 <= w <= MAX_BLOCK_WIDTH,
                    m@ > 1,
                    m.wf(),
                    base.wf(),
                    row_len == pow2(w as nat),
                    shift == bi as nat * w as nat,
                    row@.len() == d,
                    forall|d0: int|
                        0 <= d0 < d ==> (#[trigger] row@[d0]).wf() && row@[d0]@ == pow(
                            base@ as int,
                            d0 as nat * pow2(shift),
                        ) % (m@ as int),
                    g.wf(),
                    g@ == pow(base@ as int, pow2(shift)) % (m@ as int),
                decreases row_len - d,
            {
                let e = mul_rem(row.get(d - 1).unwrap(), &g, &m);
                proof {
                    let b = base@ as int;
                    let s = pow2(shift);
                    lemma_mul_mod_noop(
                        pow(b, (d - 1) as nat * s),
                        pow(b, s),
                        m@ as int,
                    );
                    lemma_pow_adds(b, (d - 1) as nat * s, s);
                    lemma_mul_is_distributive_add_other_way(s as int, d as int - 1, 1);
                    assert((d as int - 1) * s + 1 * s == d as int * s);
                    assert(e@ == pow(b, d as nat * s) % (m@ as int));
                }
                row.push(e);
                d += 1;
            }
            table.push(row);
            let mut t: usize = 0;
            while t < w
                invariant
                    t <= w,
                    1 <= w <= MAX_BLOCK_WIDTH,
                    m@ > 1,
                    m.wf(),
                    base.wf(),
                    shift == bi as nat * w as nat,
                    g.wf(),
                    g@ == pow(base@ as int, pow2(shift + t as nat)) % (m@ as int),
                decreases w - t,
            {
                proof {
                    lemma_pow_mod_square(base@ as int, pow2(shift + t as nat), m@ as int);
                    lemma_pow2_adds(shift + t as nat, 1);
                    lemma2_to64();
                    assert(2 * pow2(shift + t as nat) == pow2(shift + t as nat + 1)) by {
                        lemma_mul_is_commutative(pow2(shift + t as nat) as int, 2);
                    }
                }
                g = mul_rem(&g, &g, &m);
                t += 1;
            }
            proof {
                lemma_mul_is_distributive_add_other_way(w as int, bi as int, 1);
                assert(shift + w as nat == (bi + 1) as nat * w as nat);
            }
            bi += 1;
        }
        self.base = Some(base.clone());
        self.table = table;
    }

    /// The power of the precomputed base: `base ^ exponent mod modulus`.
    /// One table lookup per exponent window; the bits above the last
    /// window, if any, cost one square-and-multiply pass.
    pub fn fpowm(&self, exponent: &Natural) -> (r: Natural)
        requires
            self.wf(),
            self.has_base(),
        ensures
            r@ == pow(self.base_value() as int, exponent@) % (self.modulus@ as int),
            r.wf(),
    {
        let w = self.block_width;
        let l = self.exponent_bitlen;
        proof {
            if w == 1 {
                lemma_mod_one(l as nat);
            } else {
                vstd::arithmetic::div_mod::lemma_div_decreases(l as int, w as int);
            }
        }
        let blocks = l / w + if l % w != 0 {
            1
        } else {
            0
        };
        proof {
            lemma_blocks_bound(l as nat, w as nat);
        }
        let top = blocks - 1;
        let ghost b = self.base_value() as int;
        let ghost mv = self.modulus@ as int;
        let mut acc = from_u64(1);
        proof {
            lemma_mod_one(exponent@);
            lemma2_to64();
            lemma_pow0(b);
            lemma_small_mod(1, self.modulus@);
            assert(acc@ == pow(b, exponent@ % pow2(0nat * w as nat)) % mv);
        }
        let mut bi: usize = 0;
        while bi < top
            invariant
                bi <= top,
                top == blocks - 1,
                blocks == self.blocks(),
                (top as nat) * (w as nat) < self.exponent_bitlen,
                w == self.block_width,
                self.wf(),
                self.has_base(),
                b == self.base_value() as int,
                mv == self.modulus@ as int,
                acc.wf(),
                acc@ == pow(b, exponent@ % pow2(bi as nat * w as nat)) % mv,
            decreases top - bi,
        {
            let ghost shift = bi as nat * w as nat;
            proof {
                lemma_mul_inequality(bi as int + 1, top as int, w as int);
                assert((bi + 1) as nat * w as nat <= (top as nat) * (w as nat));
                lemma_mul_is_distributive_add_other_way(w as int, bi as int, 1);
            }
            let mut digit: usize = 0;
            let mut t: usize = w;
            proof {
                lemma_mod_one(exponent@ / pow2(shift + w as nat));
                lemma2_to64();
                assert(pow2(w as nat) <= 0x80000000) by {
                    if (w as nat) < 31 {
                        lemma_pow2_strictly_increases(w as nat, 31);
                    }
                }
            }
            while t > 0
                invariant
                    t <= w,
                    1 <= w <= MAX_BLOCK_WIDTH,
                    bi < top,
                    shift == bi as nat * w as nat,
                    shift + w as nat <= (top as nat) * (w as nat),
                    (top as nat) * (w as nat) < self.exponent_bitlen,
                    self.exponent_bitlen <= MAX_EXPONENT_BITLEN,
                    digit as nat == (exponent@ / pow2(shift + t as nat)) % pow2(
                        (w - t) as nat,
                    ),
                    (digit as nat) < pow2((w - t) as nat),
                    pow2((w - t) as nat) <= pow2(w as nat),
                    pow2(w as nat) <= 0x80000000,
                decreases t,
            {
                t -= 1;
                let idx: usize = bi * w + t;
                let bset = bit(exponent, idx);
                let ghost dold = digit as nat;
                digit = digit * 2 + if bset {
                    1
                } else {
                    0
                };
                proof {
                    let x = exponent@ / pow2(shift + t as nat);
                    crate::modpow::lemma_exp_div_step(exponent@, shift + t as nat);
                    lemma_pow2_pos((w - t - 1) as nat);
                    lemma_breakdown(x as int, 2, pow2((w - t - 1) as nat) as int);
                    lemma_pow2_adds(1, (w - t - 1) as nat);
                    lemma2_to64();
                    assert(idx as nat == shift + t as nat);
                    assert(x % 2 == if nth_bit(exponent@, shift + t as nat) {
                        1nat
                    } else {
                        0nat
                    });
                    assert(digit as nat == 2 * ((x / 2) % pow2((w - t - 1) as nat)) + x % 2);
                    assert(x / 2 == exponent@ / pow2(shift + t as nat + 1));
                    assert((w - t) as nat == (w - t - 1) as nat + 1);
                    if ((w - t) as nat) < w as nat {
                        lemma_pow2_strictly_increases((w - t) as nat, w as nat);
                    }
                }
            }
            let row = self.table.get(bi).unwrap();
            let entry = row.get(digit).unwrap();
            let ghost accv = acc@;
            acc = mul_rem(&acc, entry, &self.modulus);
            proof {
                let s = pow2(shift);
                let x = exponent@ % s;
                let dd = digit as nat;
                assert(entry@ == pow(b, dd * s) % mv);
                lemma_mul_mod_noop(pow(b, x), pow(b, dd * s), mv);
                lemma_pow_adds(b, x, dd * s);
                lemma_pow2_pos(shift);
                lemma_pow2_pos(w as nat);
                lemma_breakdown(exponent@ as int, s as int, pow2(w as nat) as int);
                lemma_pow2_adds(shift, w as nat);
                assert(s as int * (dd as int) == dd as int * (s as int)) by {
                    lemma_mul_is_commutative(s as int, dd as int);
                }
                assert(exponent@ % pow2(shift + w as nat) == dd * s + x);
                assert(acc@ == pow(b, exponent@ % pow2((bi + 1) as nat * w as nat)) % mv);
            }
            bi += 1;
        }
        let shift: usize = top * w;
        let etop = shr_exact(exponent, shift);
        let row = self.table.get(top).unwrap();
        let ghost stop = pow2(shift as nat);
        let ghost etopv = exponent@ / stop;
        let top_factor: Natural;
        let fits: bool = match to_u64(&etop) {
            Some(v) => v < row.len() as u64,
            None => false,
        };
        if fits {
            let dt = match to_u64(&etop) {
                Some(v) => v as usize,
                None => 0,
            };
            top_factor = row.get(dt).unwrap().clone();
            proof {
                assert(top_factor@ == pow(b, etopv * stop) % mv);
            }
        } else {
            let g1 = row.get(1).unwrap();
            proof {
                lemma2_to64();
                assert(pow2(w as nat) >= 2) by {
                    if 1 < w as nat {
                        lemma_pow2_strictly_increases(1, w as nat);
                    }
                }
                assert(g1@ == pow(b, 1nat * stop) % mv);
                assert(1nat * stop == stop);
            }
            top_factor = pow_mod(g1, &etop, &self.modulus);
            proof {
                lemma_pow_mod_noop(pow(b, stop), etopv, mv);
                lemma_pow_multiplies(b, stop, etopv);
                assert(stop * etopv == etopv * stop) by {
                    lemma_mul_is_commutative(stop as int, etopv as int);
                }
                assert(top_factor@ == pow(b, etopv * stop) % mv);
            }
        }
        let r = mul_rem(&acc, &top_factor, &self.modulus);
        proof {
            let x = exponent@ % stop;
            lemma_mul_mod_noop(pow(b, x), pow(b, etopv * stop), mv);
            lemma_pow_adds(b, x, etopv * stop);
            lemma_pow2_pos(shift as nat);
            lemma_fundamental_div_mod(exponent@ as int, stop as int);
            assert(stop as int * (etopv as int) == etopv as int * (stop as int)) by {
                lemma_mul_is_commutative(stop as int, etopv as int);
            }
            assert(x + etopv * stop == exponent@);
        }
        r
    }
}


/// A single-assignment holder of one precomputed table: the explicit
/// capability object standing for a process-wide cache. The first
/// successful initialization wins; every later attempt leaves the cache
/// exactly as it is.
#[derive(Debug)]
pub struct FPowmCache {
    pub inner: Option<FPowmTable>,
}

impl FPowmCache {
    /// Whether the one-time initialization has happened.
    pub open spec fn is_init(&self) -> bool {
        self.inner is Some
    }

    /// The cached base's value (zero before initialization).
    pub open spec fn cached_base(&self) -> nat {
        match self.inner {
            Some(t) => t.base_value(),
            None => 0,
        }
    }

    /// The cached modulus's value (zero before initialization).
    pub open spec fn cached_modulus(&self) -> nat {
        match self.inner {
            Some(t) => t.modulus@,
            None => 0,
        }
    }

    /// The cached block width (zero before initialization).
    pub open spec fn cached_block_width(&self) -> nat {
        match self.inner {
            Some(t) => t.block_width as nat,
            None => 0,
        }
    }

    /// The cached exponent bit length (zero before initialization).
    pub open spec fn cached_exponent_bitlen(&self) -> nat {
        match self.inner {
            Some(t) => t.exponent_bitlen as nat,
            None => 0,
        }
    }

    /// Well-formed: an initialized cache holds a well-formed table with
    /// a precomputed base.
    pub open spec fn wf(&self) -> bool {
        match self.inner {
            Some(t) => t.wf() && t.has_base(),
            None => true,
        }
    }

    /// An empty, not yet initialized cache.
    pub fn new() -> (r: FPowmCache)
        ensures
            !r.is_init(),
            r.wf(),
    {
        FPowmCache { inner: None }
    }
}

/// Whether the cache has been initialized.
pub fn is_cache_initialized(cache: &FPowmCache) -> (r: bool)
    ensures
        r == cache.is_init(),
{
    cache.inner.is_some()
}

/// Initializes the cache with a freshly precomputed table: the first
/// call that reaches an empty cache fills it and returns `true`; once
/// the cache is initialized every call returns `false` and leaves the
/// cached table, base and modulus untouched, whatever its arguments.
pub fn cache_init_precomp(
    cache: &mut FPowmCache,
    base: &Natural,
    modulus: &Natural,
    block_width: usize,
    exponent_bitlen: usize,
) -> (r: Result<bool, GmpMEEError>)
    requires
        old(cache).wf(),
        base.wf(),
        modulus@ > 1,
        modulus.wf(),
        block_width >= 1,
        exponent_bitlen >= 1,
    ensures
        final(cache).wf(),
        match r {
            Ok(filled) => {
                if filled {
                    &&& !old(cache).is_init()
                    &&& final(cache).is_init()
                    &&& final(cache).cached_base() == base@
                    &&& final(cache).cached_modulus() == modulus@
                    &&& final(cache).cached_block_width() == block_width as nat
                    &&& final(cache).cached_exponent_bitlen() == exponent_bitlen as nat
                } else {
                    &&& old(cache).is_init()
                    &&& *final(cache) == *old(cache)
                }
            },
            Err(e) => {
                &&& !old(cache).is_init()
                &&& *final(cache) == *old(cache)
                &&& block_width > MAX_BLOCK_WIDTH || exponent_bitlen > MAX_EXPONENT_BITLEN
                &&& e == (GmpMEEError::FPowmParameters(FPownError::ExponentCast {
                    value: if block_width > MAX_BLOCK_WIDTH {
                        block_width
                    } else {
                        exponent_bitlen
                    },
                }))
            },
        },
{
    if is_cache_initialized(cache) {
        return Ok(false);
    }
    match FPowmTable::init_precomp(base, modulus, block_width, exponent_bitlen) {
        Ok(t) => {
            cache.inner = Some(t);
            Ok(true)
        },
        Err(e) => Err(e),
    }
}

/// The cached fixed-base power `base ^ exponent mod modulus`, or `None`
/// while the cache is not initialized.
pub fn cache_fpown(cache: &FPowmCache, exponent: &Natural) -> (r: Option<Natural>)
    requires
        cache.wf(),
    ensures
        match r {
            Some(v) => {
                &&& cache.is_init()
                &&& v@ == pow(cache.cached_base() as int, exponent@) % (
                cache.cached_modulus() as int)
                &&& v.wf()
            },
            None => !cache.is_init(),
        },
{
    match &cache.inner {
        Some(t) => Some(t.fpowm(exponent)),
        None => None,
    }
}

/// The base and modulus the cache was initialized with, or `None` while
/// the cache is not initialized.
pub fn cache_base_modulus(cache: &FPowmCache) -> (r: Option<(Natural, Natural)>)
    requires
        cache.wf(),
    ensures
        match r {
            Some(p) => {
                &&& cache.is_init()
                &&& p.0@ == cache.cached_base()
                &&& p.1@ == cache.cached_modulus()
                &&& p.0.wf()
                &&& p.1.wf()
            },
            None => !cache.is_init(),
        },
{
    match &cache.inner {
        Some(t) => match &t.base {
            Some(b) => Some((b.clone(), t.modulus.clone())),
            None => {
                proof {
                    assert(false);
                }
                None
            },
        },
        None => None,
    }
}

} // verus!
