//! Long division of polynomials: quotient and remainder.

use crate::arith::{difference, lemma_product_single, product, sum, term_product};
use crate::error::PolynomialError;
use crate::fixed::{fixed_div, in_range, Fixed};
use crate::model::{
    bounded, coeff, degree, lemma_degree_none, lemma_degree_some, lemma_equal_by_coeffs,
    lemma_rank_bound, normal, rank, set_coeff, single, zero,
};
use crate::polynomial::{lemma_terms_map_degree, lemma_terms_map_normal, Polynomial};
use vstd::prelude::*;

verus! {

/// Long division of `a` by `b` has a step to take: `b` is not zero and the
/// degree of `a` is at least that of `b`.
pub open spec fn has_step(a: Map<nat, int>, b: Map<nat, int>) -> bool {
    &&& degree(a) is Some
    &&& degree(b) is Some
    &&& degree(a)->0 >= degree(b)->0
}

/// The power of the leading term of the quotient: the difference of the degrees.
pub open spec fn lead_power(a: Map<nat, int>, b: Map<nat, int>) -> nat {
    (degree(a)->0 - degree(b)->0) as nat
}

/// The coefficient of the leading term of the quotient: the quotient of the
/// leading coefficients.
pub open spec fn lead_coeff(a: Map<nat, int>, b: Map<nat, int>) -> int {
    fixed_div(coeff(a, degree(a)->0), coeff(b, degree(b)->0))
}

/// What is left of `a` after one step of long division by `b`: `a` minus the
/// leading term of the quotient times `b`, and without any term at the degree
/// of `a`, whatever the subtraction left there.
pub open spec fn reduced(a: Map<nat, int>, b: Map<nat, int>) -> Map<nat, int> {
    set_coeff(
        difference(a, product(single(lead_power(a, b), lead_coeff(a, b)), b)),
        degree(a)->0,
        0,
    )
}

/// The quotient of `a` by `b`: zero where no step can be taken, else the
/// leading term plus the quotient of what the step leaves.
pub open spec fn quotient(a: Map<nat, int>, b: Map<nat, int>) -> Map<nat, int>
    decreases rank(a),
    via quotient_decreases
{
    if has_step(a, b) {
        sum(single(lead_power(a, b), lead_coeff(a, b)), quotient(reduced(a, b), b))
    } else {
        zero()
    }
}

#[via_fn]
proof fn quotient_decreases(a: Map<nat, int>, b: Map<nat, int>) {
    if has_step(a, b) {
        lemma_reduced_rank(a, b);
    }
}

/// The remainder of `a` by `b`: `a` minus the quotient times `b`.
pub open spec fn remainder(a: Map<nat, int>, b: Map<nat, int>) -> Map<nat, int> {
    difference(a, product(quotient(a, b), b))
}

/// One step of long division lowers the rank.
pub proof fn lemma_reduced_rank(a: Map<nat, int>, b: Map<nat, int>)
    requires
        has_step(a, b),
    ensures
        rank(reduced(a, b)) < rank(a),
        forall|k: nat| reduced(a, b).contains_key(k) ==> k < degree(a)->0,
{
    lemma_degree_some(a);
    lemma_degree_some(b);
    let d = degree(a)->0;
    let v = degree(b)->0;
    let p = lead_power(a, b);
    let c = lead_coeff(a, b);
    lemma_product_single(p, c, b);
    let t = term_product(p, c, b);
    let r = reduced(a, b);
    assert forall|k: nat| r.contains_key(k) implies k < d by {
        if k > d {
            assert(!a.contains_key(k));
            if k >= p {
                let j = (k - p) as nat;
                assert(!b.contains_key(j));
                assert(c * 0 == 0) by (nonlinear_arith);
            }
            assert(coeff(t, k) == 0);
        }
    }
    lemma_rank_bound(r, d);
}

/// The quotient is in normal form, its coefficients lie within the range, and its
/// powers, raised by the degree of the divisor, stay below the rank of the
/// dividend.
pub proof fn lemma_quotient_shape(a: Map<nat, int>, b: Map<nat, int>)
    ensures
        normal(quotient(a, b)),
        bounded(quotient(a, b)),
        forall|k: nat| quotient(a, b).contains_key(k) ==> k + rank(b) <= rank(a),
    decreases rank(a),
{
    if has_step(a, b) {
        lemma_reduced_rank(a, b);
        lemma_quotient_shape(reduced(a, b), b);
        lemma_degree_some(a);
        lemma_degree_some(b);
        let rest = quotient(reduced(a, b), b);
        assert forall|k: nat| quotient(a, b).contains_key(k) implies k + rank(b) <= rank(a) by {
            if k != lead_power(a, b) {
                assert(coeff(rest, k) != 0);
                assert(rest.contains_key(k));
            }
        }
    }
}

/// The quotient, coefficient by coefficient: the leading term at its power,
/// and below it the quotient of what the step leaves.
pub proof fn lemma_quotient_step(a: Map<nat, int>, b: Map<nat, int>, k: nat)
    requires
        has_step(a, b),
    ensures
        coeff(quotient(a, b), k) == (if k == lead_power(a, b) {
            lead_coeff(a, b)
        } else {
            coeff(quotient(reduced(a, b), b), k)
        }),
{
    lemma_reduced_rank(a, b);
    lemma_quotient_shape(reduced(a, b), b);
    lemma_degree_some(a);
    lemma_degree_some(b);
    let rest = quotient(reduced(a, b), b);
    assert(in_range(coeff(rest, k)));
    if k == lead_power(a, b) {
        assert(!rest.contains_key(k));
    }
}

/// A polynomial without a degree is the zero polynomial.
proof fn polynomial_without_degree(p: &Polynomial)
    requires
        p.wf(),
        degree(p@) is None,
    ensures
        p@ == zero(),
{
    lemma_terms_map_degree(p.terms@);
    assert(p@ =~= zero());
}

impl Polynomial {
    /// The quotient of `dividend` by `divisor`, by long division from the
    /// highest power down. The zero polynomial does not divide.
    pub(crate) fn quotient_of(dividend: &Polynomial, divisor: &Polynomial) -> (r: Result<
        Polynomial,
        PolynomialError,
    >)
        ensures
            divisor@ == zero() ==> r is Err
                && r->Err_0 == PolynomialError::DivisionByZeroPolynomial,
            divisor@ != zero() ==> r is Ok && r->Ok_0@ == quotient(dividend@, divisor@),
    {
        let low: usize = match divisor.degree() {
            Some(v) => v,
            None => {
                proof {
                    use_type_invariant(divisor);
                    polynomial_without_degree(divisor);
                }
                return Err(PolynomialError::DivisionByZeroPolynomial);
            },
        };
        let by: Fixed = divisor.coefficient(low);
        proof {
            use_type_invariant(divisor);
            use_type_invariant(dividend);
            lemma_degree_some(divisor@);
            lemma_terms_map_normal(divisor.terms@);
            lemma_quotient_shape(dividend@, divisor@);
            assert(divisor@.contains_key(low as nat));
        }
        let ghost whole = quotient(dividend@, divisor@);
        let mut remaining: Polynomial = dividend.clone();
        let mut collected: Polynomial = Polynomial::new();
        loop
            invariant
                divisor.wf(),
                degree(divisor@) == Some(low as nat),
                by@ == coeff(divisor@, low as nat),
                by@ != 0,
                whole == quotient(dividend@, divisor@),
                forall|k: nat|
                    #[trigger] coeff(whole, k) == (if k + low + 1 > rank(remaining@) {
                        coeff(collected@, k)
                    } else {
                        coeff(quotient(remaining@, divisor@), k)
                    }),
                forall|k: nat|
                    k + low + 1 <= rank(remaining@) ==> #[trigger] coeff(collected@, k) == 0,
            ensures
                collected@ == whole,
            decreases rank(remaining@),
        {
            let top_power: Option<usize> = remaining.degree();
            let high: usize = match top_power {
                Some(d) => d,
                None => 0,
            };
            if top_power.is_none() || high < low {
                proof {
                    use_type_invariant(&collected);
                    assert(!has_step(remaining@, divisor@));
                    lemma_terms_map_normal(collected.terms@);
                    assert forall|k: nat| coeff(collected@, k) == coeff(whole, k) by {
                        if k + low + 1 <= rank(remaining@) {
                            assert(coeff(collected@, k) == 0);
                        }
                    }
                    lemma_equal_by_coeffs(collected@, whole);
                }
                break;
            }
            proof {
                assert(has_step(remaining@, divisor@));
                lemma_degree_some(remaining@);
                lemma_reduced_rank(remaining@, divisor@);
                lemma_product_single(
                    lead_power(remaining@, divisor@),
                    lead_coeff(remaining@, divisor@),
                    divisor@,
                );
            }
            let ghost before = remaining@;
            let ghost so_far = collected@;
            let top: Fixed = remaining.coefficient(high).div(by);
            let partial = Polynomial::term_times(high - low, top, divisor);
            remaining.combine(&partial, true);
            remaining.put(high, Fixed::zero());
            collected.put(high - low, top);
            proof {
                assert(remaining@ == reduced(before, divisor@));
                assert forall|k: nat|
                    #[trigger] coeff(whole, k) == (if k + low + 1 > rank(remaining@) {
                        coeff(collected@, k)
                    } else {
                        coeff(quotient(remaining@, divisor@), k)
                    }) by {
                    lemma_quotient_step(before, divisor@, k);
                    lemma_quotient_shape(remaining@, divisor@);
                    assert(coeff(whole, k) == (if k + low + 1 > rank(before) {
                        coeff(so_far, k)
                    } else {
                        coeff(quotient(before, divisor@), k)
                    }));
                    if k + low + 1 > rank(remaining@) && k != (high - low) as nat && k + low + 1
                        <= rank(before) {
                        assert(coeff(so_far, k) == 0);
                        assert(!quotient(remaining@, divisor@).contains_key(k));
                    }
                }
                assert forall|k: nat| k + low + 1 <= rank(remaining@) implies #[trigger] coeff(
                    collected@,
                    k,
                ) == 0 by {
                    assert(coeff(so_far, k) == 0);
                }
            }
        }
        Ok(collected)
    }

    /// The remainder of `dividend` by `divisor`: the dividend minus the
    /// quotient times the divisor. The zero polynomial does not divide.
    pub(crate) fn remainder_of(dividend: &Polynomial, divisor: &Polynomial) -> (r: Result<
        Polynomial,
        PolynomialError,
    >)
        ensures
            divisor@ == zero() ==> r is Err
                && r->Err_0 == PolynomialError::DivisionByZeroPolynomial,
            divisor@ != zero() ==> r is Ok && r->Ok_0@ == remainder(dividend@, divisor@),
    {
        match Polynomial::quotient_of(dividend, divisor) {
            Err(e) => Err(e),
            Ok(whole) => {
                proof {
                    use_type_invariant(dividend);
                    use_type_invariant(divisor);
                    lemma_quotient_shape(dividend@, divisor@);
                    lemma_terms_map_degree(dividend.terms@);
                    if degree(divisor@) is None {
                        polynomial_without_degree(divisor);
                    }
                    lemma_degree_some(divisor@);
                    assert forall|i: nat, j: nat|
                        whole@.contains_key(i) && divisor@.contains_key(j) implies i + j
                        <= usize::MAX as nat by {
                        assert(i + rank(divisor@) <= rank(dividend@));
                    }
                }
                let back = Polynomial::product_of(&whole, divisor);
                let mut rest: Polynomial = dividend.clone();
                rest.combine(&back, true);
                Ok(rest)
            },
        }
    }
}

impl core::ops::Div for Polynomial {
    type Output = Result<Polynomial, PolynomialError>;

    /// The quotient by long division; an error where `rhs` is the zero
    /// polynomial.
    fn div(self, rhs: Polynomial) -> (r: Result<Polynomial, PolynomialError>)
        ensures
            rhs@ == zero() ==> r is Err
                && r->Err_0 == PolynomialError::DivisionByZeroPolynomial,
            rhs@ != zero() ==> r is Ok && r->Ok_0@ == quotient(self@, rhs@),
    {
        Polynomial::quotient_of(&self, &rhs)
    }
}

/// What `/` asks of its operands. Its result is stated by the `ensures` of
/// `div`, over the model; no polynomial value is named for it here.
impl vstd::std_specs::ops::DivSpecImpl for Polynomial {
    open spec fn obeys_div_spec() -> bool {
        false
    }

    open spec fn div_req(self, rhs: Polynomial) -> bool {
        true
    }

    open spec fn div_spec(self, rhs: Polynomial) -> Result<Polynomial, PolynomialError> {
        Ok(self)
    }
}

impl core::ops::Rem for Polynomial {
    type Output = Result<Polynomial, PolynomialError>;

    /// The remainder of long division; an error where `rhs` is the zero
    /// polynomial.
    fn rem(self, rhs: Polynomial) -> (r: Result<Polynomial, PolynomialError>)
        ensures
            rhs@ == zero() ==> r is Err
                && r->Err_0 == PolynomialError::DivisionByZeroPolynomial,
            rhs@ != zero() ==> r is Ok && r->Ok_0@ == remainder(self@, rhs@),
    {
        Polynomial::remainder_of(&self, &rhs)
    }
}

/// What `%` asks of its operands. Its result is stated by the `ensures` of
/// `rem`, over the model; no polynomial value is named for it here.
impl vstd::std_specs::ops::RemSpecImpl for Polynomial {
    open spec fn obeys_rem_spec() -> bool {
        false
    }

    open spec fn rem_req(self, rhs: Polynomial) -> bool {
        true
    }

    open spec fn rem_spec(self, rhs: Polynomial) -> Result<Polynomial, PolynomialError> {
        Ok(self)
    }
}

} // verus!
