//! Exact scaled rationals: the price and volume domain.
//!
//! A value is `num / den * 10^exp`. Reserve-ratio prices keep the raw
//! reserve as the denominator, so no precision is ever lost; volumes and
//! square-root prices always have denominator one, which makes them finite
//! decimals that can be summed exactly.

use vstd::prelude::*;
use crate::digits::BigNat;
use crate::digits::FACTOR_LIMIT;
use crate::digits::lemma_pow10_adds;
use crate::digits::lemma_pow10_pos;
use crate::digits::pow10;

verus! {

/// Exponent magnitude bound; far beyond anything a 255-decimal token can
/// produce, but small enough that exponent arithmetic never overflows `i32`.
pub const EXP_LIMIT: i32 = 1000000;

/// The mathematical content of a `Rat`: the value `n / d * 10^e`.
pub ghost struct RatV {
    pub n: nat,
    pub d: nat,
    pub e: int,
}

pub open spec fn rat_v_wf(a: RatV) -> bool {
    a.d > 0
}

pub open spec fn min_exp(a: int, b: int) -> int {
    if a <= b {
        a
    } else {
        b
    }
}

/// The numerator of `a` rewritten to the common exponent `m <= a.e`.
pub open spec fn scaled_num(a: RatV, m: int) -> nat {
    a.n * pow10((a.e - m) as nat)
}

/// Exact order on values: cross-multiplied comparison at the smaller
/// exponent of the two.
pub open spec fn rat_le_v(a: RatV, b: RatV) -> bool {
    scaled_num(a, min_exp(a.e, b.e)) * b.d <= scaled_num(b, min_exp(a.e, b.e)) * a.d
}

/// Exact equality of values (not of representations).
pub open spec fn rat_eq_v(a: RatV, b: RatV) -> bool {
    scaled_num(a, min_exp(a.e, b.e)) * b.d == scaled_num(b, min_exp(a.e, b.e)) * a.d
}

/// Exact sum of two denominator-one values.
pub open spec fn rat_add_v(a: RatV, b: RatV) -> RatV {
    let m = min_exp(a.e, b.e);
    RatV { n: scaled_num(a, m) + scaled_num(b, m), d: 1, e: m }
}

pub proof fn lemma_scaled_num_lower(a: RatV, m: int, m2: int)
    requires
        m <= m2 <= a.e,
    ensures
        scaled_num(a, m) == scaled_num(a, m2) * pow10((m2 - m) as nat),
{
    lemma_pow10_adds((a.e - m2) as nat, (m2 - m) as nat);
    assert(a.n * (pow10((a.e - m2) as nat) * pow10((m2 - m) as nat)) == (a.n * pow10((a.e
        - m2) as nat)) * pow10((m2 - m) as nat)) by (nonlinear_arith);
}

/// The cross-multiplied comparison gives the same answer at any common
/// exponent at or below both operands' exponents.
pub proof fn lemma_rat_le_at(a: RatV, b: RatV, m: int)
    requires
        rat_v_wf(a),
        rat_v_wf(b),
        m <= a.e,
        m <= b.e,
    ensures
        rat_le_v(a, b) <==> scaled_num(a, m) * b.d <= scaled_num(b, m) * a.d,
        rat_eq_v(a, b) <==> scaled_num(a, m) * b.d == scaled_num(b, m) * a.d,
{
    let m0 = min_exp(a.e, b.e);
    let p = pow10((m0 - m) as nat);
    lemma_pow10_pos((m0 - m) as nat);
    lemma_scaled_num_lower(a, m, m0);
    lemma_scaled_num_lower(b, m, m0);
    let x = scaled_num(a, m0);
    let y = scaled_num(b, m0);
    assert((x * p) * b.d == (x * b.d) * p && (y * p) * a.d == (y * a.d) * p)
        by (nonlinear_arith);
    assert((x * b.d) * p <= (y * a.d) * p <==> x * b.d <= y * a.d) by (nonlinear_arith)
        requires
            p >= 1,
    ;
    assert((x * b.d) * p == (y * a.d) * p <==> x * b.d == y * a.d) by (nonlinear_arith)
        requires
            p >= 1,
    ;
}

/// The value order is total.
pub proof fn lemma_rat_le_total(a: RatV, b: RatV)
    ensures
        rat_le_v(a, b) || rat_le_v(b, a),
{
}

/// The value order is transitive.
pub proof fn lemma_rat_le_trans(a: RatV, b: RatV, c: RatV)
    requires
        rat_v_wf(a),
        rat_v_wf(b),
        rat_v_wf(c),
        rat_le_v(a, b),
        rat_le_v(b, c),
    ensures
        rat_le_v(a, c),
{
    let m = min_exp(min_exp(a.e, b.e), c.e);
    lemma_rat_le_at(a, b, m);
    lemma_rat_le_at(b, c, m);
    lemma_rat_le_at(a, c, m);
    let x = scaled_num(a, m);
    let y = scaled_num(b, m);
    let z = scaled_num(c, m);
    assert(x * c.d <= z * a.d) by (nonlinear_arith)
        requires
            x * b.d <= y * a.d,
            y * c.d <= z * b.d,
            a.d > 0,
            b.d > 0,
            c.d > 0,
    ;
}

/// An exact scaled rational number.
pub struct Rat {
    pub num: BigNat,
    pub den: u128,
    pub exp: i32,
}

impl View for Rat {
    type V = RatV;

    open spec fn view(&self) -> RatV {
        RatV { n: self.num.val(), d: self.den as nat, e: self.exp as int }
    }
}

impl Rat {
    pub open spec fn wf(&self) -> bool {
        &&& self.num.wf()
        &&& 0 < self.den < FACTOR_LIMIT
        &&& -EXP_LIMIT <= self.exp <= EXP_LIMIT
    }

    /// The value zero.
    pub fn zero() -> (r: Rat)
        ensures
            r.wf(),
            r@ == (RatV { n: 0, d: 1, e: 0 }),
            r@.n == 0,
    {
        Rat { num: BigNat::zero(), den: 1, exp: 0 }
    }

    pub fn is_zero(&self) -> (r: bool)
        requires
            self.wf(),
        ensures
            r <==> self@.n == 0,
    {
        self.num.is_zero()
    }

    /// A finite decimal `num * 10^exp`.
    pub fn decimal(num: BigNat, exp: i32) -> (r: Rat)
        requires
            num.wf(),
            -EXP_LIMIT <= exp <= EXP_LIMIT,
        ensures
            r.wf(),
            r@ == (RatV { n: num.val(), d: 1, e: exp as int }),
    {
        Rat { num, den: 1, exp }
    }

    /// The rational `num / den * 10^exp`.
    pub fn ratio(num: BigNat, den: u128, exp: i32) -> (r: Rat)
        requires
            num.wf(),
            0 < den < FACTOR_LIMIT,
            -EXP_LIMIT <= exp <= EXP_LIMIT,
        ensures
            r.wf(),
            r@ == (RatV { n: num.val(), d: den as nat, e: exp as int }),
    {
        Rat { num, den, exp }
    }

    /// An identical copy (same representation, same value).
    pub fn duplicate(&self) -> (r: Rat)
        requires
            self.wf(),
        ensures
            r.wf(),
            r@ == self@,
            r.den == self.den,
            r.exp == self.exp,
    {
        Rat { num: self.num.duplicate(), den: self.den, exp: self.exp }
    }

    /// Exact order on values.
    pub fn le(&self, other: &Rat) -> (r: bool)
        requires
            self.wf(),
            other.wf(),
        ensures
            r <==> rat_le_v(self@, other@),
    {
        let m: i32 = if self.exp <= other.exp {
            self.exp
        } else {
            other.exp
        };
        let ka: usize = (self.exp - m) as usize;
        let kb: usize = (other.exp - m) as usize;
        let left = self.num.shl10(ka).mul_small(other.den);
        let right = other.num.shl10(kb).mul_small(self.den);
        left.le(&right)
    }

    /// Strict order on values.
    pub fn lt(&self, other: &Rat) -> (r: bool)
        requires
            self.wf(),
            other.wf(),
        ensures
            r <==> !rat_le_v(other@, self@),
    {
        !other.le(self)
    }

    /// Exact equality of values.
    pub fn eq_val(&self, other: &Rat) -> (r: bool)
        requires
            self.wf(),
            other.wf(),
        ensures
            r <==> rat_eq_v(self@, other@),
    {
        let le1 = self.le(other);
        let le2 = other.le(self);
        le1 && le2
    }

    /// Exact sum of two finite decimals (denominator one).
    pub fn add(&self, other: &Rat) -> (r: Rat)
        requires
            self.wf(),
            other.wf(),
            self.den == 1,
            other.den == 1,
        ensures
            r.wf(),
            r@ == rat_add_v(self@, other@),
            r.den == 1,
    {
        let m: i32 = if self.exp <= other.exp {
            self.exp
        } else {
            other.exp
        };
        let ka: usize = (self.exp - m) as usize;
        let kb: usize = (other.exp - m) as usize;
        let left = self.num.shl10(ka);
        let right = other.num.shl10(kb);
        Rat { num: left.add(&right), den: 1, exp: m }
    }
}

} // verus!
