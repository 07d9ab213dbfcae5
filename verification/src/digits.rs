//! Arbitrary-precision unsigned integers stored as base-10 digit vectors.
//!
//! Raw pool reserves and square-root prices are on-chain integers of up to
//! 256 bits, and scaling them by powers of ten for decimal rendering grows
//! them further, so a machine word is not enough. Digits are stored least
//! significant first; a well-formed number has no leading (most significant)
//! zero digit, which keeps the representation of each value unique.

use vstd::prelude::*;

verus! {

/// Upper bound (`2^124`) on machine-word factors and divisors, leaving
/// headroom so that a digit-by-digit product or remainder times ten still
/// fits in a `u128`.
pub const FACTOR_LIMIT: u128 = 0x10000000000000000000000000000000;

/// Ten to the power `k`.
pub open spec fn pow10(k: nat) -> nat
    decreases k,
{
    if k == 0 {
        1
    } else {
        10 * pow10((k - 1) as nat)
    }
}

pub proof fn lemma_pow10_pos(k: nat)
    ensures
        pow10(k) >= 1,
    decreases k,
{
    if k > 0 {
        lemma_pow10_pos((k - 1) as nat);
    }
}

pub proof fn lemma_pow10_adds(a: nat, b: nat)
    ensures
        pow10(a + b) == pow10(a) * pow10(b),
    decreases a,
{
    if a == 0 {
        assert(pow10(b) == 1 * pow10(b)) by (nonlinear_arith);
    } else {
        lemma_pow10_adds((a - 1) as nat, b);
        assert(10 * (pow10((a - 1) as nat) * pow10(b)) == (10 * pow10((a - 1) as nat)) * pow10(b))
            by (nonlinear_arith);
    }
}

pub proof fn lemma_pow10_increases(a: nat, b: nat)
    requires
        a <= b,
    ensures
        pow10(a) <= pow10(b),
    decreases b,
{
    if a < b {
        lemma_pow10_increases(a, (b - 1) as nat);
        lemma_pow10_pos((b - 1) as nat);
    }
}

/// Every entry is a decimal digit.
pub open spec fn all_digits(s: Seq<u8>) -> bool {
    forall|i: int| 0 <= i < s.len() ==> (#[trigger] s[i]) < 10
}

/// No leading zero: the most significant digit, when present, is nonzero.
pub open spec fn no_leading_zero(s: Seq<u8>) -> bool {
    s.len() == 0 || s[s.len() - 1] != 0
}

pub open spec fn digits_wf(s: Seq<u8>) -> bool {
    all_digits(s) && no_leading_zero(s)
}

/// The number denoted by a least-significant-first digit sequence.
pub open spec fn digits_val(s: Seq<u8>) -> nat
    decreases s.len(),
{
    if s.len() == 0 {
        0
    } else {
        s[0] as nat + 10 * digits_val(s.drop_first())
    }
}

/// Prepending a least significant digit multiplies the rest by ten.
pub proof fn lemma_digits_val_cons(x: u8, t: Seq<u8>)
    ensures
        digits_val(seq![x].add(t)) == x as nat + 10 * digits_val(t),
{
    let s = seq![x].add(t);
    assert(s[0] == x);
    assert(s.drop_first() =~= t);
}

pub proof fn lemma_digits_val_push(s: Seq<u8>, d: u8)
    ensures
        digits_val(s.push(d)) == digits_val(s) + (d as nat) * pow10(s.len()),
    decreases s.len(),
{
    if s.len() == 0 {
        assert(s.push(d) =~= seq![d].add(Seq::<u8>::empty()));
        lemma_digits_val_cons(d, Seq::<u8>::empty());
        assert((d as nat) * 1 == d as nat) by (nonlinear_arith);
    } else {
        assert(s.push(d).drop_first() =~= s.drop_first().push(d));
        assert(s.push(d)[0] == s[0]);
        lemma_digits_val_push(s.drop_first(), d);
        assert(digits_val(s.push(d)) == s[0] as nat + 10 * digits_val(s.drop_first().push(d)));
        assert(10 * (digits_val(s.drop_first()) + (d as nat) * pow10((s.len() - 1) as nat))
            == 10 * digits_val(s.drop_first()) + (d as nat) * (10 * pow10((s.len() - 1) as nat)))
            by (nonlinear_arith);
    }
}

/// Dropping a most-significant zero digit does not change the value.
pub proof fn lemma_digits_val_drop_last_zero(s: Seq<u8>)
    requires
        s.len() > 0,
        s[s.len() - 1] == 0,
    ensures
        digits_val(s) == digits_val(s.drop_last()),
{
    assert(s =~= s.drop_last().push(0));
    lemma_digits_val_push(s.drop_last(), 0);
}

/// The value of `k` digits is below `10^k`.
pub proof fn lemma_digits_val_upper(s: Seq<u8>)
    requires
        all_digits(s),
    ensures
        digits_val(s) < pow10(s.len()),
    decreases s.len(),
{
    if s.len() > 0 {
        lemma_digits_val_upper(s.drop_first());
        assert(digits_val(s.drop_first()) <= pow10((s.len() - 1) as nat) - 1);
        assert(10 * digits_val(s.drop_first()) <= 10 * (pow10((s.len() - 1) as nat) - 1))
            by (nonlinear_arith)
            requires
                digits_val(s.drop_first()) <= pow10((s.len() - 1) as nat) - 1,
        ;
    }
}

/// A well-formed nonempty number is at least `10^(len-1)`, hence positive.
pub proof fn lemma_digits_val_lower(s: Seq<u8>)
    requires
        digits_wf(s),
        s.len() > 0,
    ensures
        digits_val(s) >= pow10((s.len() - 1) as nat),
        digits_val(s) >= 1,
    decreases s.len(),
{
    lemma_pow10_pos((s.len() - 1) as nat);
    if s.len() == 1 {
        assert(digits_val(s) == s[0] as nat + 10 * digits_val(s.drop_first()));
    } else {
        assert(s.drop_first()[s.drop_first().len() - 1] == s[s.len() - 1]);
        lemma_digits_val_lower(s.drop_first());
        assert(10 * digits_val(s.drop_first()) >= 10 * pow10((s.len() - 2) as nat))
            by (nonlinear_arith)
            requires
                digits_val(s.drop_first()) >= pow10((s.len() - 2) as nat),
        ;
    }
}

/// The value of the prefix holding the `i` least significant digits
/// (the whole value once `i` reaches the length).
pub open spec fn prefix_val(s: Seq<u8>, i: nat) -> nat {
    if i <= s.len() {
        digits_val(s.take(i as int))
    } else {
        digits_val(s)
    }
}

/// The digit at position `i`, taking absent high positions as zero.
pub open spec fn digit_at(s: Seq<u8>, i: nat) -> nat {
    if i < s.len() {
        s[i as int] as nat
    } else {
        0
    }
}

pub proof fn lemma_prefix_val_step(s: Seq<u8>, i: nat)
    ensures
        prefix_val(s, i + 1) == prefix_val(s, i) + digit_at(s, i) * pow10(i),
{
    if i < s.len() {
        assert(s.take(i as int + 1) =~= s.take(i as int).push(s[i as int]));
        assert(s.take(i as int).len() == i);
        lemma_digits_val_push(s.take(i as int), s[i as int]);
    } else {
        if i == s.len() {
            assert(s.take(i as int) =~= s);
        }
        assert(0 * pow10(i) == 0) by (nonlinear_arith);
    }
}

pub proof fn lemma_prefix_val_full(s: Seq<u8>)
    ensures
        prefix_val(s, s.len()) == digits_val(s),
{
    assert(s.take(s.len() as int) =~= s);
}

/// Splitting off the `k` least significant digits:
/// `val(s) == val(low k digits) + 10^k * val(rest)`.
pub proof fn lemma_digits_val_split(s: Seq<u8>, k: nat)
    requires
        k <= s.len(),
    ensures
        digits_val(s) == digits_val(s.take(k as int)) + pow10(k) * digits_val(s.skip(k as int)),
    decreases k,
{
    if k == 0 {
        assert(s.take(0) =~= Seq::<u8>::empty());
        assert(s.skip(0) =~= s);
        assert(1 * digits_val(s) == digits_val(s)) by (nonlinear_arith);
    } else {
        assert(s.len() > 0);
        lemma_digits_val_split(s.drop_first(), (k - 1) as nat);
        assert(s.take(k as int).drop_first() =~= s.drop_first().take(k - 1));
        assert(s.skip(k as int) =~= s.drop_first().skip(k - 1));
        let rest = digits_val(s.drop_first().skip(k - 1));
        assert(10 * (digits_val(s.drop_first().take(k - 1)) + pow10((k - 1) as nat) * rest)
            == 10 * digits_val(s.drop_first().take(k - 1)) + (10 * pow10((k - 1) as nat)) * rest)
            by (nonlinear_arith);
    }
}

/// An arbitrary-precision unsigned integer in base 10.
pub struct BigNat {
    /// Decimal digits, least significant first, most significant nonzero.
    pub digits: Vec<u8>,
}

impl BigNat {
    /// The mathematical value.
    pub open spec fn val(&self) -> nat {
        digits_val(self.digits@)
    }

    pub open spec fn wf(&self) -> bool {
        digits_wf(self.digits@)
    }

    /// The zero value.
    pub fn zero() -> (r: BigNat)
        ensures
            r.wf(),
            r.val() == 0,
    {
        BigNat { digits: Vec::new() }
    }

    pub fn is_zero(&self) -> (r: bool)
        requires
            self.wf(),
        ensures
            r <==> self.val() == 0,
    {
        proof {
            if self.digits@.len() > 0 {
                lemma_digits_val_lower(self.digits@);
            }
        }
        self.digits.len() == 0
    }

    /// Drop any most-significant zero digits left behind by arithmetic.
    fn trim(v: &mut Vec<u8>)
        requires
            all_digits(old(v)@),
        ensures
            digits_wf(final(v)@),
            digits_val(final(v)@) == digits_val(old(v)@),
    {
        while v.len() > 0 && v[v.len() - 1] == 0
            invariant
                all_digits(v@),
                digits_val(v@) == digits_val(old(v)@),
            decreases v.len(),
        {
            proof {
                lemma_digits_val_drop_last_zero(v@);
            }
            v.pop();
        }
    }

    /// Conversion from a machine integer.
    pub fn from_u128(x: u128) -> (r: BigNat)
        ensures
            r.wf(),
            r.val() == x as nat,
    {
        let mut v: Vec<u8> = Vec::new();
        let mut rem: u128 = x;
        proof {
            assert(digits_val(v@) + (rem as nat) * pow10(0) == x as nat) by (nonlinear_arith)
                requires
                    digits_val(v@) == 0,
                    rem == x,
                    pow10(0) == 1,
            ;
        }
        while rem > 0
            invariant
                all_digits(v@),
                digits_val(v@) + (rem as nat) * pow10(v@.len()) == x as nat,
                rem == 0 ==> no_leading_zero(v@),
            decreases rem,
        {
            let d: u8 = (rem % 10) as u8;
            let next: u128 = rem / 10;
            proof {
                lemma_digits_val_push(v@, d);
                assert((rem as nat) * pow10(v@.len()) == (d as nat) * pow10(v@.len()) + (next
                    as nat) * (10 * pow10(v@.len()))) by (nonlinear_arith)
                    requires
                        d == rem % 10,
                        next == rem / 10,
                        rem > 0,
                ;
            }
            v.push(d);
            rem = next;
            proof {
                if rem == 0 {
                    assert(v@[v@.len() - 1] == d);
                }
            }
        }
        proof {
            assert((0 as nat) * pow10(v@.len()) == 0) by (nonlinear_arith);
        }
        BigNat { digits: v }
    }

    /// Exact comparison; decided by length first, then by the most
    /// significant differing digit.
    pub fn le(&self, other: &BigNat) -> (r: bool)
        requires
            self.wf(),
            other.wf(),
        ensures
            r <==> self.val() <= other.val(),
    {
        if self.digits.len() != other.digits.len() {
            proof {
                if self.digits@.len() < other.digits@.len() {
                    lemma_digits_val_upper(self.digits@);
                    lemma_digits_val_lower(other.digits@);
                    lemma_pow10_increases(self.digits@.len(), (other.digits@.len() - 1) as nat);
                } else {
                    lemma_digits_val_upper(other.digits@);
                    lemma_digits_val_lower(self.digits@);
                    lemma_pow10_increases(other.digits@.len(), (self.digits@.len() - 1) as nat);
                }
            }
            return self.digits.len() < other.digits.len();
        }
        let mut i: usize = self.digits.len();
        while i > 0
            invariant
                self.digits@.len() == other.digits@.len(),
                i <= self.digits@.len(),
                all_digits(self.digits@),
                all_digits(other.digits@),
                self.digits@.skip(i as int) =~= other.digits@.skip(i as int),
            decreases i,
        {
            let j = i - 1;
            proof {
                assert(self.digits@.skip(j as int) =~= seq![self.digits@[j as int]].add(self.digits@.skip(i as int)));
                assert(other.digits@.skip(j as int) =~= seq![other.digits@[j as int]].add(other.digits@.skip(i as int)));
                lemma_digits_val_cons(self.digits@[j as int], self.digits@.skip(i as int));
                lemma_digits_val_cons(other.digits@[j as int], other.digits@.skip(i as int));
            }
            if self.digits[j] != other.digits[j] {
                proof {
                    lemma_digits_val_split(self.digits@, j as nat);
                    lemma_digits_val_split(other.digits@, j as nat);
                    lemma_digits_val_upper(self.digits@.take(j as int));
                    lemma_digits_val_upper(other.digits@.take(j as int));
                    let pj = pow10(j as nat);
                    lemma_pow10_pos(j as nat);
                    if self.digits@[j as int] < other.digits@[j as int] {
                        assert(digits_val(self.digits@.take(j as int)) + pj * digits_val(self.digits@.skip(j as int))
                            < digits_val(other.digits@.take(j as int)) + pj * digits_val(other.digits@.skip(j as int)))
                            by (nonlinear_arith)
                            requires
                                pj >= 1,
                                digits_val(self.digits@.take(j as int)) < pj,
                                digits_val(self.digits@.skip(j as int)) < digits_val(other.digits@.skip(j as int)),
                        ;
                    } else {
                        assert(digits_val(other.digits@.take(j as int)) + pj * digits_val(other.digits@.skip(j as int))
                            < digits_val(self.digits@.take(j as int)) + pj * digits_val(self.digits@.skip(j as int)))
                            by (nonlinear_arith)
                            requires
                                pj >= 1,
                                digits_val(other.digits@.take(j as int)) < pj,
                                digits_val(other.digits@.skip(j as int)) < digits_val(self.digits@.skip(j as int)),
                        ;
                    }
                    assert(self.digits@[j as int] < other.digits@[j as int] ==> digits_val(self.digits@) < digits_val(other.digits@));
                    assert(self.digits@[j as int] > other.digits@[j as int] ==> digits_val(other.digits@) < digits_val(self.digits@));
                }
                return self.digits[j] < other.digits[j];
            }
            i = j;
        }
        proof {
            assert(self.digits@.skip(0) =~= self.digits@);
            assert(other.digits@.skip(0) =~= other.digits@);
            assert(self.digits@ =~= other.digits@);
        }
        true
    }

    /// An identical copy (same digits, same value).
    pub fn duplicate(&self) -> (r: BigNat)
        ensures
            r.digits@ == self.digits@,
    {
        let mut v: Vec<u8> = Vec::new();
        let mut i: usize = 0;
        while i < self.digits.len()
            invariant
                i <= self.digits@.len(),
                v@.len() == i,
                forall|t: int| 0 <= t < i ==> (#[trigger] v@[t]) == self.digits@[t],
            decreases self.digits@.len() - i,
        {
            v.push(self.digits[i]);
            i = i + 1;
        }
        proof {
            assert(v@ =~= self.digits@);
        }
        BigNat { digits: v }
    }

    /// Exact sum.
    pub fn add(&self, other: &BigNat) -> (r: BigNat)
        requires
            self.wf(),
            other.wf(),
        ensures
            r.wf(),
            r.val() == self.val() + other.val(),
    {
        let n: usize = if self.digits.len() < other.digits.len() {
            other.digits.len()
        } else {
            self.digits.len()
        };
        let mut v: Vec<u8> = Vec::new();
        let mut carry: u8 = 0;
        let mut i: usize = 0;
        proof {
            assert(v@.take(0) =~= Seq::<u8>::empty());
            assert((0 as nat) * pow10(0) == 0) by (nonlinear_arith);
        }
        while i < n
            invariant
                i <= n,
                n >= self.digits@.len(),
                n >= other.digits@.len(),
                all_digits(self.digits@),
                all_digits(other.digits@),
                carry <= 1,
                all_digits(v@),
                v@.len() == i,
                digits_val(v@) + (carry as nat) * pow10(i as nat) == prefix_val(self.digits@, i as nat)
                    + prefix_val(other.digits@, i as nat),
            decreases n - i,
        {
            let da: u8 = if i < self.digits.len() {
                self.digits[i]
            } else {
                0
            };
            let db: u8 = if i < other.digits.len() {
                other.digits[i]
            } else {
                0
            };
            let sum: u8 = da + db + carry;
            let d: u8 = sum % 10;
            let c: u8 = sum / 10;
            proof {
                lemma_digits_val_push(v@, d);
                lemma_prefix_val_step(self.digits@, i as nat);
                lemma_prefix_val_step(other.digits@, i as nat);
                let p = pow10(i as nat);
                assert(pow10(i as nat + 1) == 10 * p) by {
                    lemma_pow10_adds(1, i as nat);
                };
                assert((d as nat) * p + (c as nat) * (10 * p) == (da as nat) * p + (db as nat) * p
                    + (carry as nat) * p) by (nonlinear_arith)
                    requires
                        d as nat + 10 * (c as nat) == da as nat + db as nat + carry as nat,
                ;
            }
            v.push(d);
            carry = c;
            i = i + 1;
        }
        proof {
            lemma_prefix_val_full(self.digits@);
            lemma_prefix_val_full(other.digits@);
        }
        if carry > 0 {
            proof {
                lemma_digits_val_push(v@, carry);
            }
            v.push(carry);
        } else {
            proof {
                assert((0 as nat) * pow10(i as nat) == 0) by (nonlinear_arith);
            }
        }
        Self::trim(&mut v);
        BigNat { digits: v }
    }

    /// Exact product with a machine-word factor.
    pub fn mul_small(&self, m: u128) -> (r: BigNat)
        requires
            self.wf(),
            m < FACTOR_LIMIT,
        ensures
            r.wf(),
            r.val() == self.val() * m,
    {
        if m == 0 {
            proof {
                assert(self.val() * 0 == 0) by (nonlinear_arith);
            }
            return Self::zero();
        }
        let mut v: Vec<u8> = Vec::new();
        let mut carry: u128 = 0;
        let mut i: usize = 0;
        proof {
            assert(v@.take(0) =~= Seq::<u8>::empty());
            assert((0 as nat) * pow10(0) == 0 && (0 as nat) * (m as nat) == 0) by (nonlinear_arith);
        }
        while i < self.digits.len()
            invariant
                i <= self.digits@.len(),
                all_digits(self.digits@),
                0 < m < FACTOR_LIMIT,
                carry < m,
                all_digits(v@),
                v@.len() == i,
                digits_val(v@) + (carry as nat) * pow10(i as nat) == prefix_val(self.digits@, i as nat)
                    * (m as nat),
            decreases self.digits@.len() - i,
        {
            let da: u8 = self.digits[i];
            proof {
                assert((da as nat) * (m as nat) + (carry as nat) < 10 * (m as nat))
                    by (nonlinear_arith)
                    requires
                        da < 10,
                        carry < m,
                ;
            }
            let x: u128 = (da as u128) * m + carry;
            let d: u8 = (x % 10) as u8;
            let c: u128 = x / 10;
            proof {
                assert(c < m) by (nonlinear_arith)
                    requires
                        c == x / 10,
                        x < 10 * m,
                        m > 0,
                ;
                lemma_digits_val_push(v@, d);
                lemma_prefix_val_step(self.digits@, i as nat);
                let p = pow10(i as nat);
                assert(pow10(i as nat + 1) == 10 * p) by {
                    lemma_pow10_adds(1, i as nat);
                };
                assert((prefix_val(self.digits@, i as nat) + (da as nat) * p) * (m as nat)
                    == prefix_val(self.digits@, i as nat) * (m as nat) + ((da as nat) * (m as nat))
                    * p) by (nonlinear_arith);
                assert((d as nat) * p + (c as nat) * (10 * p) == ((da as nat) * (m as nat)) * p
                    + (carry as nat) * p) by (nonlinear_arith)
                    requires
                        d as nat + 10 * (c as nat) == (da as nat) * (m as nat) + (carry as nat),
                ;
            }
            v.push(d);
            carry = c;
            i = i + 1;
        }
        proof {
            lemma_prefix_val_full(self.digits@);
        }
        while carry > 0
            invariant
                all_digits(v@),
                digits_val(v@) + (carry as nat) * pow10(v@.len()) == self.val() * (m as nat),
            decreases carry,
        {
            let d: u8 = (carry % 10) as u8;
            let next: u128 = carry / 10;
            proof {
                lemma_digits_val_push(v@, d);
                assert((carry as nat) * pow10(v@.len()) == (d as nat) * pow10(v@.len()) + (next
                    as nat) * (10 * pow10(v@.len()))) by (nonlinear_arith)
                    requires
                        d == carry % 10,
                        next == carry / 10,
                        carry > 0,
                ;
            }
            v.push(d);
            carry = next;
        }
        proof {
            assert((0 as nat) * pow10(v@.len()) == 0) by (nonlinear_arith);
        }
        Self::trim(&mut v);
        BigNat { digits: v }
    }

    /// Exact product with `10^k`: shift the digits up by `k` places.
    pub fn shl10(&self, k: usize) -> (r: BigNat)
        requires
            self.wf(),
        ensures
            r.wf(),
            r.val() == self.val() * pow10(k as nat),
    {
        if self.digits.len() == 0 {
            proof {
                assert((0 as nat) * pow10(k as nat) == 0) by (nonlinear_arith);
            }
            return Self::zero();
        }
        let mut v: Vec<u8> = Vec::new();
        let mut j: usize = 0;
        while j < k
            invariant
                j <= k,
                v@.len() == j,
                forall|t: int| 0 <= t < v@.len() ==> (#[trigger] v@[t]) == 0,
            decreases k - j,
        {
            v.push(0);
            j = j + 1;
        }
        let mut i: usize = 0;
        while i < self.digits.len()
            invariant
                i <= self.digits@.len(),
                v@.len() == k + i,
                forall|t: int| 0 <= t < k ==> (#[trigger] v@[t]) == 0,
                forall|t: int| 0 <= t < i ==> (#[trigger] v@[k + t]) == self.digits@[t],
            decreases self.digits@.len() - i,
        {
            v.push(self.digits[i]);
            i = i + 1;
        }
        proof {
            assert(v@.skip(k as int).len() == self.digits@.len());
            assert forall|t: int| 0 <= t < self.digits@.len() implies v@.skip(k as int)[t]
                == self.digits@[t] by {
                assert(v@[k + t] == self.digits@[t]);
            }
            assert(v@.skip(k as int) =~= self.digits@);
            lemma_digits_val_split(v@, k as nat);
            lemma_digits_val_zeros(v@.take(k as int));
            assert forall|idx: int| 0 <= idx < v@.len() implies (#[trigger] v@[idx]) < 10 by {
                if k <= idx {
                    assert(v@[k + (idx - k)] == self.digits@[idx - k]);
                }
            }
            assert(v@[v@.len() - 1] == self.digits@[self.digits@.len() - 1]);
            assert(digits_val(v@) == digits_val(self.digits@) * pow10(k as nat))
                by (nonlinear_arith)
                requires
                    digits_val(v@) == pow10(k as nat) * digits_val(self.digits@),
            ;
        }
        BigNat { digits: v }
    }

    /// Exact quotient by `10^k`: drop the `k` least significant digits.
    pub fn shr10(&self, k: usize) -> (r: BigNat)
        requires
            self.wf(),
        ensures
            r.wf(),
            r.val() == self.val() / pow10(k as nat),
    {
        if k >= self.digits.len() {
            proof {
                lemma_digits_val_upper(self.digits@);
                lemma_pow10_increases(self.digits@.len(), k as nat);
                lemma_pow10_pos(k as nat);
                vstd::arithmetic::div_mod::lemma_fundamental_div_mod_converse(
                    self.val() as int,
                    pow10(k as nat) as int,
                    0,
                    self.val() as int,
                );
            }
            return Self::zero();
        }
        let mut v: Vec<u8> = Vec::new();
        let mut i: usize = k;
        while i < self.digits.len()
            invariant
                k <= i <= self.digits@.len(),
                v@.len() == i - k,
                forall|t: int| 0 <= t < v@.len() ==> (#[trigger] v@[t]) == self.digits@[k + t],
            decreases self.digits@.len() - i,
        {
            v.push(self.digits[i]);
            i = i + 1;
        }
        proof {
            assert(v@ =~= self.digits@.skip(k as int));
            lemma_digits_val_split(self.digits@, k as nat);
            lemma_digits_val_upper(self.digits@.take(k as int));
            lemma_pow10_pos(k as nat);
            assert(v@[v@.len() - 1] == self.digits@[self.digits@.len() - 1]);
            assert(pow10(k as nat) * digits_val(v@) == digits_val(v@) * pow10(k as nat))
                by (nonlinear_arith);
            vstd::arithmetic::div_mod::lemma_fundamental_div_mod_converse(
                self.val() as int,
                pow10(k as nat) as int,
                digits_val(v@) as int,
                digits_val(self.digits@.take(k as int)) as int,
            );
        }
        BigNat { digits: v }
    }

    /// Exact Euclidean division by a machine-word divisor: long division
    /// from the most significant digit down.
    pub fn div_rem(&self, den: u128) -> (r: (BigNat, u128))
        requires
            self.wf(),
            0 < den < FACTOR_LIMIT,
        ensures
            r.0.wf(),
            r.0.val() == self.val() / (den as nat),
            r.1 as nat == self.val() % (den as nat),
    {
        let mut qm: Vec<u8> = Vec::new();
        let mut rem: u128 = 0;
        let mut i: usize = self.digits.len();
        proof {
            assert(self.digits@.skip(self.digits@.len() as int) =~= Seq::<u8>::empty());
            assert(msb_val(Seq::<u8>::empty()) * (den as nat) == 0) by (nonlinear_arith);
        }
        while i > 0
            invariant
                i <= self.digits@.len(),
                all_digits(self.digits@),
                0 < den < FACTOR_LIMIT,
                rem < den,
                all_digits(qm@),
                msb_val(qm@) * (den as nat) + rem as nat == digits_val(self.digits@.skip(i as int)),
            decreases i,
        {
            let j = i - 1;
            let dj: u8 = self.digits[j];
            let acc: u128 = rem * 10 + (dj as u128);
            let qd: u128 = acc / den;
            let nrem: u128 = acc % den;
            proof {
                assert(qd <= 9) by (nonlinear_arith)
                    requires
                        qd == acc / den,
                        acc < 10 * den,
                        den > 0,
                ;
                assert(self.digits@.skip(j as int) =~= seq![self.digits@[j as int]].add(
                    self.digits@.skip(i as int)));
                lemma_digits_val_cons(self.digits@[j as int], self.digits@.skip(i as int));
                let q = msb_val(qm@);
                let n0 = digits_val(self.digits@.skip(i as int));
                assert(qd * den + nrem == acc) by (nonlinear_arith)
                    requires
                        qd == acc / den,
                        nrem == acc % den,
                        den > 0,
                ;
                assert((10 * q + qd as nat) * (den as nat) + nrem as nat == (dj as nat) + 10 * n0)
                    by (nonlinear_arith)
                    requires
                        q * (den as nat) + rem as nat == n0,
                        (qd as nat) * (den as nat) + nrem as nat == acc as nat,
                        acc == rem * 10 + dj,
                ;
                assert(msb_val(qm@.push(qd as u8)) == 10 * msb_val(qm@) + qd as nat) by {
                    assert(qm@.push(qd as u8).drop_last() =~= qm@);
                };
            }
            qm.push(qd as u8);
            rem = nrem;
            i = j;
        }
        proof {
            assert(self.digits@.skip(0) =~= self.digits@);
        }
        // Reverse the most-significant-first quotient digits into the
        // least-significant-first representation.
        let mut v: Vec<u8> = Vec::new();
        let mut t: usize = qm.len();
        proof {
            assert(qm@.skip(qm@.len() as int) =~= Seq::<u8>::empty());
        }
        while t > 0
            invariant
                t <= qm@.len(),
                all_digits(qm@),
                all_digits(v@),
                v@.len() == qm@.len() - t,
                digits_val(v@) == msb_val(qm@.skip(t as int)),
            decreases t,
        {
            let u = t - 1;
            proof {
                lemma_digits_val_push(v@, qm@[u as int]);
                assert(qm@.skip(u as int) =~= seq![qm@[u as int]].add(qm@.skip(t as int)));
                lemma_msb_val_cons(qm@[u as int], qm@.skip(t as int));
                assert(qm@.skip(t as int).len() == v@.len());
            }
            v.push(qm[u]);
            t = u;
        }
        proof {
            assert(qm@.skip(0) =~= qm@);
            vstd::arithmetic::div_mod::lemma_fundamental_div_mod_converse(
                self.val() as int,
                den as int,
                digits_val(v@) as int,
                rem as int,
            );
        }
        Self::trim(&mut v);
        (BigNat { digits: v }, rem)
    }
}

/// A sequence of zero digits denotes zero.
pub proof fn lemma_digits_val_zeros(s: Seq<u8>)
    requires
        forall|t: int| 0 <= t < s.len() ==> (#[trigger] s[t]) == 0,
    ensures
        digits_val(s) == 0,
    decreases s.len(),
{
    if s.len() > 0 {
        lemma_digits_val_zeros(s.drop_first());
    }
}

/// The number denoted by a most-significant-first digit sequence.
pub open spec fn msb_val(s: Seq<u8>) -> nat
    decreases s.len(),
{
    if s.len() == 0 {
        0
    } else {
        10 * msb_val(s.drop_last()) + s.last() as nat
    }
}

pub proof fn lemma_msb_val_cons(x: u8, t: Seq<u8>)
    ensures
        msb_val(seq![x].add(t)) == (x as nat) * pow10(t.len()) + msb_val(t),
    decreases t.len(),
{
    if t.len() == 0 {
        assert(seq![x].add(t) =~= seq![x]);
        assert(seq![x].drop_last() =~= Seq::<u8>::empty());
        assert(seq![x].last() == x);
        assert(msb_val(seq![x]) == 10 * msb_val(Seq::<u8>::empty()) + x as nat);
        assert((x as nat) * 1 == x as nat) by (nonlinear_arith);
    } else {
        assert(seq![x].add(t).drop_last() =~= seq![x].add(t.drop_last()));
        assert(seq![x].add(t).last() == t.last());
        lemma_msb_val_cons(x, t.drop_last());
        assert(10 * ((x as nat) * pow10((t.len() - 1) as nat) + msb_val(t.drop_last()))
            == (x as nat) * (10 * pow10((t.len() - 1) as nat)) + 10 * msb_val(t.drop_last()))
            by (nonlinear_arith);
        assert(pow10(t.len()) == 10 * pow10((t.len() - 1) as nat)) by {
            lemma_pow10_adds(1, (t.len() - 1) as nat);
        };
    }
}

/// The canonical digit sequence of a number.
pub open spec fn nat_digits(m: nat) -> Seq<u8>
    decreases m,
{
    if m == 0 {
        Seq::<u8>::empty()
    } else {
        seq![(m % 10) as u8].add(nat_digits(m / 10))
    }
}

/// Well-formed digit sequences are canonical: the digits of a value are
/// determined, so equal values have equal representations.
pub proof fn lemma_digits_canonical(s: Seq<u8>)
    requires
        digits_wf(s),
    ensures
        nat_digits(digits_val(s)) == s,
    decreases s.len(),
{
    if s.len() == 0 {
    } else {
        let m = digits_val(s);
        lemma_digits_val_lower(s);
        assert(m == s[0] as nat + 10 * digits_val(s.drop_first()));
        assert(m % 10 == s[0] as nat && m / 10 == digits_val(s.drop_first())) by (nonlinear_arith)
            requires
                m == s[0] as nat + 10 * digits_val(s.drop_first()),
                s[0] < 10,
        ;
        assert(nat_digits(m) == seq![(m % 10) as u8].add(nat_digits(m / 10)));
        assert((m % 10) as u8 == s[0]);
        if s.len() == 1 {
            assert(s.drop_first() =~= Seq::<u8>::empty());
            assert(nat_digits(m / 10) == Seq::<u8>::empty());
            assert(seq![s[0]].add(Seq::<u8>::empty()) =~= s);
        } else {
            assert(s.drop_first()[s.drop_first().len() - 1] == s[s.len() - 1]);
            lemma_digits_canonical(s.drop_first());
            assert(nat_digits(m / 10) == s.drop_first());
            assert(seq![s[0]].add(s.drop_first()) =~= s);
        }
    }
}

} // verus!
