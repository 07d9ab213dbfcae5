//! Deriving a normalized decimal exchange rate from the two on-chain price
//! representations: constant-product reserve ratios and concentrated
//! liquidity square-root prices.

use vstd::prelude::*;
use crate::digits::BigNat;
use crate::digits::FACTOR_LIMIT;
use crate::rat::Rat;
use crate::rat::RatV;
use crate::rat::rat_le_v;
use crate::rat::scaled_num;
use crate::rat::min_exp;

verus! {

/// Five to the power `k`.
pub open spec fn pow5(k: nat) -> nat
    decreases k,
{
    if k == 0 {
        1
    } else {
        5 * pow5((k - 1) as nat)
    }
}

/// The exact constant-product price `(reserve1 / reserve0) * 10^(d0 - d1)`
/// as a rational.
pub open spec fn reserves_price_v(reserve0: nat, reserve1: nat, d0: int, d1: int) -> RatV {
    RatV { n: reserve1, d: reserve0, e: d0 - d1 }
}

/// Price of token0 in token1 units from constant-product reserves:
/// `(reserve1 / reserve0) * 10^(decimals0 - decimals1)`, kept as an exact
/// rational. Either reserve being zero leaves the price undefined, which is
/// returned as the zero value so the caller can exclude the observation.
pub fn derive_from_reserves(reserve0: u128, reserve1: u128, decimals0: u8, decimals1: u8) -> (r:
    Rat)
    requires
        reserve0 < FACTOR_LIMIT,
    ensures
        r.wf(),
        reserve0 == 0 || reserve1 == 0 ==> r@.n == 0,
        reserve0 != 0 && reserve1 != 0 ==> r@ == reserves_price_v(
            reserve0 as nat,
            reserve1 as nat,
            decimals0 as int,
            decimals1 as int,
        ),
{
    if reserve0 == 0 || reserve1 == 0 {
        return Rat::zero();
    }
    Rat::ratio(BigNat::from_u128(reserve1), reserve0, decimals0 as i32 - decimals1 as i32)
}

/// A square-root price in Q64.96 format: a 160-bit unsigned value equal to
/// `sqrt(price) * 2^96`. The high 32 bits and low 128 bits are carried
/// separately so the whole range fits in plain machine words.
pub struct SqrtPriceQ96 {
    pub hi: u32,
    pub lo: u128,
}

impl SqrtPriceQ96 {
    /// The 160-bit value.
    pub open spec fn val(&self) -> nat {
        self.hi as nat * 0x100000000000000000000000000000000 + self.lo as nat
    }
}

/// The exact concentrated-liquidity price `(s / 2^96)^2 * 10^(d0 - d1)`,
/// written as the finite decimal `s^2 * 5^192 * 10^(d0 - d1 - 192)`.
pub open spec fn sqrt_price_v(s: nat, d0: int, d1: int) -> RatV {
    RatV { n: s * s * pow5(192), d: 1, e: d0 - d1 - 192 }
}

/// Price of token0 in token1 units from a concentrated-liquidity pool:
/// `(sqrtPriceQ96 / 2^96)^2 * 10^(decimals0 - decimals1)` exactly, with no
/// widening loss when squaring the 160-bit value.
pub fn derive_from_sqrt_price(sqrt_price: &SqrtPriceQ96, decimals0: u8, decimals1: u8) -> (r: Rat)
    ensures
        r.wf(),
        r@ == sqrt_price_v(sqrt_price.val(), decimals0 as int, decimals1 as int),
{
    let c64: u128 = 0x10000000000000000;
    let a: u128 = sqrt_price.hi as u128;
    let lo: u128 = sqrt_price.lo;
    let b: u128 = lo >> 64;
    let c: u128 = lo & 0xffffffffffffffff;
    proof {
        assert(b == lo / 0x10000000000000000 && c == lo % 0x10000000000000000
            && b < 0x10000000000000000 && c < 0x10000000000000000) by (bit_vector)
            requires
                b == lo >> 64u128,
                c == lo & 0xffffffffffffffff,
        ;
        assert(lo as nat == b as nat * 0x10000000000000000 + c as nat) by (nonlinear_arith)
            requires
                b == lo as nat / 0x10000000000000000,
                c == lo as nat % 0x10000000000000000,
        ;
        // Partial products stay inside u128.
        assert(a * a < 0x10000000000000000 && 2 * (a * b) < 0x200000000000000000000000000
            && 2 * (a * c) < 0x200000000000000000000000000 && b * b
            <= 0xfffffffffffffffe0000000000000001 && b * c <= 0xfffffffffffffffe0000000000000001
            && c * c <= 0xfffffffffffffffe0000000000000001) by (nonlinear_arith)
            requires
                a < 0x100000000,
                b < 0x10000000000000000,
                c < 0x10000000000000000,
        ;
    }
    let t_aa: u128 = a * a;
    let t_ab2: u128 = 2 * (a * b);
    let t_ac2: u128 = 2 * (a * c);
    let t_bb: u128 = b * b;
    let t_bc: u128 = b * c;
    let t_cc: u128 = c * c;
    // Horner accumulation of the square in base 2^64.
    let mut acc = BigNat::from_u128(t_aa);
    acc = acc.mul_small(c64).add(&BigNat::from_u128(t_ab2));
    acc = acc.mul_small(c64).add(&BigNat::from_u128(t_ac2)).add(&BigNat::from_u128(t_bb));
    acc = acc.mul_small(c64).add(&BigNat::from_u128(t_bc)).add(&BigNat::from_u128(t_bc));
    acc = acc.mul_small(c64).add(&BigNat::from_u128(t_cc));
    proof {
        let s = sqrt_price.val();
        assert(acc.val() == s * s) by (nonlinear_arith)
            requires
                acc.val() == ((((a * a) * c64 + 2 * (a * b)) * c64 + 2 * (a * c) + b * b) * c64 + (b
                    * c) + (b * c)) * c64 + c * c,
                s == a * (c64 * c64) + b * c64 + c,
                c64 == 0x10000000000000000,
        ;
        assert((s * s) * pow5(0) == s * s) by (nonlinear_arith)
            requires
                pow5(0) == 1,
        ;
    }
    // Fold in 5^192 so the denominator becomes a pure power of ten.
    let mut j: usize = 0;
    while j < 192
        invariant
            j <= 192,
            acc.wf(),
            acc.val() == sqrt_price.val() * sqrt_price.val() * pow5(j as nat),
        decreases 192 - j,
    {
        proof {
            lemma_pow5_step((j + 1) as nat);
            let s2 = sqrt_price.val() * sqrt_price.val();
            assert((s2 * pow5(j as nat)) * 5 == s2 * (5 * pow5(j as nat))) by (nonlinear_arith);
        }
        acc = acc.mul_small(5);
        j = j + 1;
    }
    Rat::decimal(acc, decimals0 as i32 - decimals1 as i32 - 192)
}

pub proof fn lemma_pow5_step(k: nat)
    requires
        k > 0,
    ensures
        pow5(k) == 5 * pow5((k - 1) as nat),
{
}

/// Monotonicity of the square-root-price derivation: for a fixed decimal
/// scale, a larger `sqrtPriceQ96` never yields a smaller price, and a
/// strictly larger one yields a strictly larger price.
pub proof fn lemma_sqrt_price_monotone(s1: nat, s2: nat, d0: int, d1: int)
    requires
        s1 <= s2,
    ensures
        rat_le_v(sqrt_price_v(s1, d0, d1), sqrt_price_v(s2, d0, d1)),
        s1 < s2 ==> !rat_le_v(sqrt_price_v(s2, d0, d1), sqrt_price_v(s1, d0, d1)),
{
    let p1 = sqrt_price_v(s1, d0, d1);
    let p2 = sqrt_price_v(s2, d0, d1);
    let e = d0 - d1 - 192;
    assert(min_exp(p1.e, p2.e) == e);
    assert(scaled_num(p1, e) == p1.n * 1);
    assert(scaled_num(p2, e) == p2.n * 1);
    lemma_pow5_pos(192);
    assert((s1 * s1 * pow5(192)) * 1 * 1 <= (s2 * s2 * pow5(192)) * 1 * 1) by (nonlinear_arith)
        requires
            s1 <= s2,
    ;
    if s1 < s2 {
        assert((s1 * s1 * pow5(192)) * 1 * 1 < (s2 * s2 * pow5(192)) * 1 * 1)
            by (nonlinear_arith)
            requires
                s1 < s2,
                pow5(192) >= 1,
        ;
    }
}

pub proof fn lemma_pow5_pos(k: nat)
    ensures
        pow5(k) >= 1,
    decreases k,
{
    if k > 0 {
        lemma_pow5_pos((k - 1) as nat);
    }
}

} // verus!
