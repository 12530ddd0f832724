//! Decimal fixed-point numbers with six fractional digits.
//!
//! A [`Fixed`] holds a count of millionths between `-LIMIT` and `LIMIT`. A
//! result that leaves this range saturates at its ends, and products and
//! quotients are rounded toward zero. The range is the same on both sides of
//! zero, so that negation is exact. The spec functions in this module state
//! each operation on mathematical integers (the counts of millionths).

use vstd::prelude::*;

verus! {

/// The number of raw units in one whole.
pub const SCALE: i64 = 1_000_000;

/// The largest raw value; the smallest is its negative.
pub const LIMIT: i64 = 0x7fff_ffff_ffff_ffff;

/// `v` brought into the range of the raw values.
pub open spec fn saturate(v: int) -> int {
    if v > LIMIT as int {
        LIMIT as int
    } else if v < -(LIMIT as int) {
        -(LIMIT as int)
    } else {
        v
    }
}

/// Whether `v` is the raw value of some [`Fixed`].
pub open spec fn in_range(v: int) -> bool {
    -(LIMIT as int) <= v <= LIMIT as int
}

/// The quotient `n / d` rounded toward zero (`d` is not zero).
pub open spec fn trunc_div(n: int, d: int) -> int {
    if d > 0 {
        if n >= 0 {
            n / d
        } else {
            -((-n) / d)
        }
    } else {
        if n >= 0 {
            -(n / (-d))
        } else {
            (-n) / (-d)
        }
    }
}

/// Saturating sum of two raw values.
pub open spec fn sat_add(a: int, b: int) -> int {
    saturate(a + b)
}

/// Saturating difference of two raw values.
pub open spec fn sat_sub(a: int, b: int) -> int {
    saturate(a - b)
}

/// Fixed-point product: the exact product of the two values, rounded toward
/// zero to a whole number of millionths, then saturated.
pub open spec fn fixed_mul(a: int, b: int) -> int {
    saturate(trunc_div(a * b, SCALE as int))
}

/// Fixed-point quotient (`b` is not zero): the exact quotient of the two
/// values, rounded toward zero to a whole number of millionths, then saturated.
pub open spec fn fixed_div(a: int, b: int) -> int {
    saturate(trunc_div(a * (SCALE as int), b))
}

/// The raw value `a` taken `n` times, saturated.
pub open spec fn scale_up(a: int, n: nat) -> int {
    saturate(a * n)
}

/// The raw value `a` divided into `n` parts (`n` is not zero), rounded toward zero.
pub open spec fn scale_down(a: int, n: nat) -> int {
    trunc_div(a, n as int)
}

/// `x` raised to the power `n` by repeated fixed-point multiplication,
/// starting from one.
pub open spec fn fixed_pow(x: int, n: nat) -> int
    decreases n,
{
    if n == 0 {
        SCALE as int
    } else {
        fixed_mul(fixed_pow(x, (n - 1) as nat), x)
    }
}

/// Whether zero lies between the raw values `a` and `b` (ends included):
/// their exact product is not positive.
pub open spec fn sign_change(a: int, b: int) -> bool {
    a * b <= 0
}

/// Dividing a multiple of `n` by `n` gives back the factor.
pub proof fn lemma_trunc_div_multiple(a: int, n: int)
    requires
        n > 0,
    ensures
        trunc_div(a * n, n) == a,
{
    if a >= 0 {
        assert(a * n >= 0) by (nonlinear_arith)
            requires
                a >= 0,
                n > 0,
        ;
        vstd::arithmetic::div_mod::lemma_div_by_multiple(a, n);
    } else {
        assert(a * n < 0) by (nonlinear_arith)
            requires
                a < 0,
                n > 0,
        ;
        assert(-(a * n) == (-a) * n) by (nonlinear_arith);
        vstd::arithmetic::div_mod::lemma_div_by_multiple(-a, n);
    }
}

/// Where `n` divides `a`, the rounded quotient times `n` is `a` again.
pub proof fn lemma_trunc_div_exact(a: int, n: int)
    requires
        n > 0,
        a % n == 0,
    ensures
        trunc_div(a, n) * n == a,
{
    vstd::arithmetic::div_mod::lemma_fundamental_div_mod(a, n);
    let q = a / n;
    assert(a == n * q);
    assert(a == q * n) by (nonlinear_arith)
        requires
            a == n * q,
    ;
    lemma_trunc_div_multiple(q, n);
}

/// Rounding toward zero commutes with negation.
pub proof fn lemma_trunc_div_negated(n: int, d: int)
    requires
        d != 0,
    ensures
        trunc_div(-n, d) == -trunc_div(n, d),
{
    if n == 0 {
        assert(0int / d == 0 && 0int / (-d) == 0);
    }
}

/// The product of a negated factor is the negated product.
pub proof fn lemma_fixed_mul_negated(a: int, b: int)
    ensures
        fixed_mul(-a, b) == -fixed_mul(a, b),
        fixed_mul(a, -b) == -fixed_mul(a, b),
{
    assert((-a) * b == -(a * b)) by (nonlinear_arith);
    assert(a * (-b) == -(a * b)) by (nonlinear_arith);
    lemma_trunc_div_negated(a * b, SCALE as int);
}

/// A power of a negated number is the power of the number, negated where
/// the exponent is odd.
pub proof fn lemma_fixed_pow_negated(x: int, n: nat)
    ensures
        fixed_pow(-x, n) == (if n % 2 == 1 {
            -fixed_pow(x, n)
        } else {
            fixed_pow(x, n)
        }),
    decreases n,
{
    if n > 0 {
        let lower = fixed_pow(x, (n - 1) as nat);
        lemma_fixed_pow_negated(x, (n - 1) as nat);
        lemma_fixed_mul_negated(lower, x);
        lemma_fixed_mul_negated(-lower, x);
    }
}

/// A decimal fixed-point number: a count of millionths from `-LIMIT` to
/// `LIMIT`.
#[derive(Clone, Copy, Debug, PartialEq, Eq, Structural)]
pub struct Fixed {
    pub(crate) raw: i64,
}

/// `v` brought into the range of the raw values.
fn clamp(v: i128) -> (r: i64)
    ensures
        r as int == saturate(v as int),
{
    if v > LIMIT as i128 {
        LIMIT
    } else if v < -(LIMIT as i128) {
        -LIMIT
    } else {
        v as i64
    }
}

/// `n / d` rounded toward zero, computed on magnitudes.
fn quotient_toward_zero(n: i128, d: i128) -> (q: i128)
    requires
        d != 0,
        -0x4000_0000_0000_0000_0000_0000_0000_0000 < n <= 0x4000_0000_0000_0000_0000_0000_0000_0000,
        -0x4000_0000_0000_0000_0000_0000_0000_0000 < d <= 0x4000_0000_0000_0000_0000_0000_0000_0000,
    ensures
        q as int == trunc_div(n as int, d as int),
{
    let size_n: i128 = if n >= 0 { n } else { -n };
    let size_d: i128 = if d >= 0 { d } else { -d };
    let size_q: i128 = size_n / size_d;
    proof {
        let a = size_n as int;
        let b = size_d as int;
        assert(0 <= a / b <= a) by (nonlinear_arith)
            requires
                a >= 0,
                b > 0,
        ;
    }
    if (n >= 0) == (d > 0) {
        size_q
    } else {
        -size_q
    }
}

/// The product of two 64-bit values never leaves 127 bits.
pub proof fn lemma_product_bounds(a: int, b: int)
    requires
        i64::MIN <= a <= i64::MAX,
        i64::MIN <= b <= i64::MAX,
    ensures
        -0x4000_0000_0000_0000_0000_0000_0000_0000 < a * b,
        a * b <= 0x4000_0000_0000_0000_0000_0000_0000_0000,
{
    assert(-0x4000_0000_0000_0000_0000_0000_0000_0000 < a * b
        <= 0x4000_0000_0000_0000_0000_0000_0000_0000) by (nonlinear_arith)
        requires
            -0x8000_0000_0000_0000 <= a <= 0x7fff_ffff_ffff_ffff,
            -0x8000_0000_0000_0000 <= b <= 0x7fff_ffff_ffff_ffff,
    ;
}

impl Fixed {
    /// The count of millionths lies within the range.
    #[verifier::type_invariant]
    pub open(crate) spec fn wf(self) -> bool {
        in_range(self.raw as int)
    }

    /// The count of millionths.
    pub open(crate) spec fn view(&self) -> int {
        self.raw as int
    }

    /// The count of millionths.
    pub fn raw(self) -> (r: i64)
        ensures
            r as int == self@,
            in_range(self@),
    {
        proof {
            use_type_invariant(self);
        }
        self.raw
    }

    /// The number zero.
    pub fn zero() -> (r: Fixed)
        ensures
            r@ == 0,
    {
        Fixed { raw: 0 }
    }

    /// The number one.
    pub fn one() -> (r: Fixed)
        ensures
            r@ == SCALE as int,
    {
        Fixed { raw: SCALE }
    }

    /// The number with the given count of millionths, saturated.
    pub fn from_raw(raw: i64) -> (r: Fixed)
        ensures
            r@ == saturate(raw as int),
    {
        Fixed { raw: clamp(raw as i128) }
    }

    /// The whole number `n`, saturated.
    pub fn from_int(n: i64) -> (r: Fixed)
        ensures
            r@ == saturate(n as int * (SCALE as int)),
    {
        proof {
            lemma_product_bounds(n as int, SCALE as int);
        }
        let wide: i128 = (n as i128) * (SCALE as i128);
        Fixed { raw: clamp(wide) }
    }

    /// Whether this number is zero.
    pub fn is_zero(self) -> (r: bool)
        ensures
            r == (self@ == 0),
    {
        self.raw == 0
    }

    /// Whether this number is above zero.
    pub fn is_positive(self) -> (r: bool)
        ensures
            r == (self@ > 0),
    {
        self.raw > 0
    }

    /// Whether this number is below zero.
    pub fn is_negative(self) -> (r: bool)
        ensures
            r == (self@ < 0),
    {
        self.raw < 0
    }

    /// Saturating sum.
    pub fn add(self, rhs: Fixed) -> (r: Fixed)
        ensures
            r@ == sat_add(self@, rhs@),
            in_range(r@),
    {
        let wide: i128 = (self.raw as i128) + (rhs.raw as i128);
        Fixed { raw: clamp(wide) }
    }

    /// Saturating difference.
    pub fn sub(self, rhs: Fixed) -> (r: Fixed)
        ensures
            r@ == sat_sub(self@, rhs@),
    {
        let wide: i128 = (self.raw as i128) - (rhs.raw as i128);
        Fixed { raw: clamp(wide) }
    }

    /// The negated number.
    pub fn neg(self) -> (r: Fixed)
        ensures
            r@ == -self@,
    {
        proof {
            use_type_invariant(self);
        }
        Fixed { raw: -self.raw }
    }

    /// Product, rounded toward zero and saturated.
    pub fn mul(self, rhs: Fixed) -> (r: Fixed)
        ensures
            r@ == fixed_mul(self@, rhs@),
    {
        proof {
            lemma_product_bounds(self@, rhs@);
        }
        let wide: i128 = (self.raw as i128) * (rhs.raw as i128);
        Fixed { raw: clamp(quotient_toward_zero(wide, SCALE as i128)) }
    }

    /// Quotient, rounded toward zero and saturated.
    pub fn div(self, rhs: Fixed) -> (r: Fixed)
        requires
            rhs@ != 0,
        ensures
            r@ == fixed_div(self@, rhs@),
    {
        proof {
            lemma_product_bounds(self@, SCALE as int);
        }
        let wide: i128 = (self.raw as i128) * (SCALE as i128);
        Fixed { raw: clamp(quotient_toward_zero(wide, rhs.raw as i128)) }
    }

    /// This number taken `n` times, saturated.
    pub fn times(self, n: usize) -> (r: Fixed)
        ensures
            r@ == scale_up(self@, n as nat),
    {
        if self.raw == 0 {
            assert(self@ * (n as nat) == 0) by (nonlinear_arith)
                requires
                    self@ == 0,
            ;
            Fixed { raw: 0 }
        } else if n as u64 > LIMIT as u64 {
            assert(self@ > 0 ==> self@ * (n as nat) > LIMIT as int) by (nonlinear_arith)
                requires
                    n as int > LIMIT as int,
            ;
            assert(self@ < 0 ==> self@ * (n as nat) < -(LIMIT as int)) by (nonlinear_arith)
                requires
                    n as int > LIMIT as int,
            ;
            if self.raw > 0 {
                Fixed { raw: LIMIT }
            } else {
                Fixed { raw: -LIMIT }
            }
        } else {
            proof {
                lemma_product_bounds(self@, n as int);
            }
            let wide: i128 = (self.raw as i128) * (n as i128);
            Fixed { raw: clamp(wide) }
        }
    }

    /// This number divided into `n` parts, rounded toward zero.
    pub fn over(self, n: usize) -> (r: Fixed)
        requires
            n > 0,
        ensures
            r@ == scale_down(self@, n as nat),
    {
        let wide: i128 = quotient_toward_zero(self.raw as i128, n as i128);
        proof {
            use_type_invariant(self);
            let a = self@;
            let d = n as int;
            assert(a >= 0 ==> 0 <= a / d <= a) by (nonlinear_arith)
                requires
                    d > 0,
            ;
            assert(a < 0 ==> 0 <= (-a) / d <= -a) by (nonlinear_arith)
                requires
                    d > 0,
            ;
        }
        Fixed { raw: wide as i64 }
    }

    /// The fraction `part / whole` of one, rounded toward zero.
    pub fn ratio(part: usize, whole: usize) -> (r: Fixed)
        requires
            0 < whole,
            part <= whole,
        ensures
            r@ == (part * SCALE) / (whole as int),
    {
        let wide: i128 = (part as i128) * (SCALE as i128);
        let scaled: i128 = wide / (whole as i128);
        proof {
            let a = part as int;
            let b = whole as int;
            assert(0 <= (a * 1_000_000) / b <= 1_000_000) by (nonlinear_arith)
                requires
                    0 <= a <= b,
                    0 < b,
            ;
        }
        Fixed { raw: scaled as i64 }
    }

    /// This number raised to the power `n` by repeated multiplication.
    pub fn pow(self, n: usize) -> (r: Fixed)
        ensures
            r@ == fixed_pow(self@, n as nat),
    {
        let mut acc: Fixed = Fixed::one();
        let mut i: usize = 0;
        while i < n
            invariant
                i <= n,
                acc@ == fixed_pow(self@, i as nat),
            decreases n - i,
        {
            acc = acc.mul(self);
            i = i + 1;
        }
        acc
    }

    /// Whether zero lies between this number and `other`, ends included.
    pub fn brackets_zero_with(self, other: Fixed) -> (r: bool)
        ensures
            r == sign_change(self@, other@),
    {
        proof {
            let a: int = self@;
            let b: int = other@;
            assert(((a <= 0 && b >= 0) || (a >= 0 && b <= 0)) <==> a * b <= 0) by (nonlinear_arith);
        }
        (self.raw <= 0 && other.raw >= 0) || (self.raw >= 0 && other.raw <= 0)
    }
}

} // verus!
