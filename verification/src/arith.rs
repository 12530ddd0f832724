//! Sum, difference and product of polynomials.

use crate::fixed::{fixed_mul, in_range, sat_add, sat_sub, Fixed};
use crate::model::{
    bounded, coeff, degree, is_degree, lemma_degree_is, lemma_degree_none, lemma_equal_by_coeffs,
    normal, single, sparse, zero,
};
use crate::polynomial::{
    among_first, lemma_among_first_all, lemma_among_first_next, lemma_terms_map_coeff,
    lemma_terms_map_degree, lemma_terms_map_entry, lemma_terms_map_gap, lemma_terms_map_normal,
    Polynomial, Term,
};
use vstd::prelude::*;

verus! {

/// Coefficient by coefficient, the saturating sum.
pub open spec fn sum(a: Map<nat, int>, b: Map<nat, int>) -> Map<nat, int> {
    sparse(|k: nat| sat_add(coeff(a, k), coeff(b, k)))
}

/// Coefficient by coefficient, the saturating difference.
pub open spec fn difference(a: Map<nat, int>, b: Map<nat, int>) -> Map<nat, int> {
    sparse(|k: nat| sat_sub(coeff(a, k), coeff(b, k)))
}

/// The coefficient of a sum or difference.
pub open spec fn merged(a: int, b: int, subtract: bool) -> int {
    if subtract {
        sat_sub(a, b)
    } else {
        sat_add(a, b)
    }
}

/// The single term `c x^p` times `b`.
pub open spec fn term_product(p: nat, c: int, b: Map<nat, int>) -> Map<nat, int> {
    sparse(
        |k: nat|
            if k >= p {
                fixed_mul(c, coeff(b, (k - p) as nat))
            } else {
                0
            },
    )
}

/// The terms of `a` below `x^n`, each multiplied by `b`, summed up in
/// ascending order of their powers.
pub open spec fn product_below(a: Map<nat, int>, b: Map<nat, int>, n: nat) -> Map<nat, int>
    decreases n,
{
    if n == 0 {
        zero()
    } else {
        sum(
            product_below(a, b, (n - 1) as nat),
            term_product((n - 1) as nat, coeff(a, (n - 1) as nat), b),
        )
    }
}

/// The product of `a` and `b`.
pub open spec fn product(a: Map<nat, int>, b: Map<nat, int>) -> Map<nat, int> {
    match degree(a) {
        Some(d) => product_below(a, b, d + 1),
        None => zero(),
    }
}

/// Every power of `a` plus every power of `b` fits a `usize`.
pub open spec fn product_fits(a: Map<nat, int>, b: Map<nat, int>) -> bool {
    forall|i: nat, j: nat| a.contains_key(i) && b.contains_key(j) ==> i + j <= usize::MAX as nat
}

/// Adding the zero polynomial changes nothing.
pub proof fn lemma_sum_zero(m: Map<nat, int>)
    requires
        normal(m),
        bounded(m),
    ensures
        sum(m, zero()) == m,
{
    assert forall|k: nat| coeff(sum(m, zero()), k) == coeff(m, k) by {
        assert(in_range(coeff(m, k)));
    }
    lemma_equal_by_coeffs(sum(m, zero()), m);
}

/// Adding to the zero polynomial changes nothing.
pub proof fn lemma_zero_sum(m: Map<nat, int>)
    requires
        normal(m),
        bounded(m),
    ensures
        sum(zero(), m) == m,
{
    assert forall|k: nat| coeff(sum(zero(), m), k) == coeff(m, k) by {
        assert(in_range(coeff(m, k)));
    }
    lemma_equal_by_coeffs(sum(zero(), m), m);
}

/// A sum is in normal form and its coefficients lie within the range.
pub proof fn lemma_sum_bounded(a: Map<nat, int>, b: Map<nat, int>)
    ensures
        normal(sum(a, b)),
        bounded(sum(a, b)),
{
}

/// A term with the coefficient zero has the zero polynomial as its product
/// with anything.
pub proof fn lemma_term_product_zero(p: nat, b: Map<nat, int>)
    ensures
        term_product(p, 0, b) == zero(),
{
    assert forall|k: nat| coeff(term_product(p, 0, b), k) == 0 by {
        if k >= p {
            let y = coeff(b, (k - p) as nat);
            assert(0 * y == 0) by (nonlinear_arith);
        }
    }
    assert(term_product(p, 0, b) =~= zero());
}

/// A product with one term is in normal form and its coefficients lie
/// within the range.
pub proof fn lemma_term_product_bounded(p: nat, c: int, b: Map<nat, int>)
    ensures
        normal(term_product(p, c, b)),
        bounded(term_product(p, c, b)),
{
}

/// The partial products are in normal form and their coefficients lie
/// within the range.
pub proof fn lemma_product_below_bounded(a: Map<nat, int>, b: Map<nat, int>, n: nat)
    ensures
        normal(product_below(a, b, n)),
        bounded(product_below(a, b, n)),
    decreases n,
{
    if n > 0 {
        lemma_sum_bounded(
            product_below(a, b, (n - 1) as nat),
            term_product((n - 1) as nat, coeff(a, (n - 1) as nat), b),
        );
    }
}

/// Powers at which `a` has no term add nothing to the partial products.
pub proof fn lemma_product_below_skip(a: Map<nat, int>, b: Map<nat, int>, lo: nat, hi: nat)
    requires
        lo <= hi,
        forall|k: nat| lo <= k < hi ==> coeff(a, k) == 0,
    ensures
        product_below(a, b, hi) == product_below(a, b, lo),
    decreases hi - lo,
{
    if lo < hi {
        let n = (hi - 1) as nat;
        lemma_product_below_skip(a, b, lo, n);
        assert(coeff(a, n) == 0);
        lemma_term_product_zero(n, b);
        lemma_product_below_bounded(a, b, n);
        lemma_sum_zero(product_below(a, b, n));
    }
}

/// The product of a polynomial of one term is the product with that term.
pub proof fn lemma_product_single(p: nat, c: int, b: Map<nat, int>)
    ensures
        product(single(p, c), b) == term_product(p, c, b),
{
    let a = single(p, c);
    if c == 0 {
        assert(a =~= zero());
        lemma_degree_none(a);
        lemma_term_product_zero(p, b);
    } else {
        assert(is_degree(a, p));
        lemma_degree_is(a, p);
        lemma_product_below_skip(a, b, 0, p);
        lemma_term_product_bounded(p, c, b);
        lemma_zero_sum(term_product(p, c, b));
    }
}

impl Polynomial {
    /// Adds `rhs` to this polynomial, or subtracts it, coefficient by
    /// coefficient.
    pub(crate) fn combine(&mut self, rhs: &Polynomial, subtract: bool)
        ensures
            final(self)@ == (if subtract {
                difference(old(self)@, rhs@)
            } else {
                sum(old(self)@, rhs@)
            }),
    {
        proof {
            use_type_invariant(&*self);
            use_type_invariant(rhs);
            lemma_terms_map_normal(self.terms@);
        }
        let ghost start = self@;
        let ghost rs = rhs.terms@;
        let n: usize = rhs.terms.len();
        let mut i: usize = 0;
        while i < n
            invariant
                i <= n,
                n == rs.len(),
                rs == rhs.terms@,
                rhs.wf(),
                forall|k: nat|
                    #[trigger] coeff(self@, k) == (if among_first(rs, i as int, k) {
                        merged(coeff(start, k), coeff(rhs@, k), subtract)
                    } else {
                        coeff(start, k)
                    }),
            decreases n - i,
        {
            let term: Term = rhs.terms[i];
            let held: Fixed = self.coefficient(term.power);
            let ghost before = self@;
            let value: Fixed = if subtract {
                held.sub(term.coeff)
            } else {
                held.add(term.coeff)
            };
            self.put(term.power, value);
            proof {
                lemma_terms_map_entry(rs, i as int);
                assert forall|k: nat|
                    #[trigger] coeff(self@, k) == (if among_first(rs, i + 1, k) {
                        merged(coeff(start, k), coeff(rhs@, k), subtract)
                    } else {
                        coeff(start, k)
                    }) by {
                    lemma_among_first_next(rs, i as int, k);
                    assert(coeff(before, k) == (if among_first(rs, i as int, k) {
                        merged(coeff(start, k), coeff(rhs@, k), subtract)
                    } else {
                        coeff(start, k)
                    }));
                }
            }
            i = i + 1;
        }
        proof {
            use_type_invariant(&*self);
            lemma_terms_map_normal(self.terms@);
            let target = if subtract {
                difference(start, rhs@)
            } else {
                sum(start, rhs@)
            };
            assert forall|k: nat| coeff(self@, k) == coeff(target, k) by {
                lemma_among_first_all(rs, k);
                lemma_terms_map_coeff(rs, k);
                assert(in_range(coeff(start, k)));
            }
            lemma_equal_by_coeffs(self@, target);
        }
    }

    /// The single term `value * x^power` times `rhs`.
    pub(crate) fn term_times(power: usize, value: Fixed, rhs: &Polynomial) -> (r: Polynomial)
        requires
            forall|j: nat| rhs@.contains_key(j) ==> power + j <= usize::MAX as nat,
        ensures
            r@ == term_product(power as nat, value@, rhs@),
    {
        proof {
            use_type_invariant(rhs);
        }
        let ghost rs = rhs.terms@;
        let ghost p = power as nat;
        let n: usize = rhs.terms.len();
        let mut partial = Polynomial::new();
        let mut i: usize = 0;
        while i < n
            invariant
                i <= n,
                n == rs.len(),
                rs == rhs.terms@,
                p == power as nat,
                rhs.wf(),
                forall|j: nat| rhs@.contains_key(j) ==> power + j <= usize::MAX as nat,
                forall|k: nat|
                    #[trigger] coeff(partial@, k) == (if k >= p && among_first(
                        rs,
                        i as int,
                        (k - p) as nat,
                    ) {
                        fixed_mul(value@, coeff(rhs@, (k - p) as nat))
                    } else {
                        0
                    }),
            decreases n - i,
        {
            let term: Term = rhs.terms[i];
            proof {
                lemma_terms_map_entry(rs, i as int);
                assert(rhs@.contains_key(term.power as nat));
            }
            let ghost before = partial@;
            partial.put(power + term.power, value.mul(term.coeff));
            proof {
                assert forall|k: nat|
                    #[trigger] coeff(partial@, k) == (if k >= p && among_first(
                        rs,
                        i + 1,
                        (k - p) as nat,
                    ) {
                        fixed_mul(value@, coeff(rhs@, (k - p) as nat))
                    } else {
                        0
                    }) by {
                    if k >= p {
                        lemma_among_first_next(rs, i as int, (k - p) as nat);
                    }
                    assert(coeff(before, k) == (if k >= p && among_first(
                        rs,
                        i as int,
                        (k - p) as nat,
                    ) {
                        fixed_mul(value@, coeff(rhs@, (k - p) as nat))
                    } else {
                        0
                    }));
                }
            }
            i = i + 1;
        }
        proof {
            use_type_invariant(&partial);
            lemma_terms_map_normal(partial.terms@);
            let target = term_product(p, value@, rhs@);
            assert forall|k: nat| coeff(partial@, k) == coeff(target, k) by {
                if k >= p {
                    lemma_among_first_all(rs, (k - p) as nat);
                    lemma_terms_map_coeff(rs, (k - p) as nat);
                    assert(value@ * 0 == 0) by (nonlinear_arith);
                }
            }
            lemma_equal_by_coeffs(partial@, target);
        }
        partial
    }

    /// The product of two polynomials whose powers add up within a `usize`.
    pub(crate) fn product_of(lhs: &Polynomial, rhs: &Polynomial) -> (r: Polynomial)
        requires
            product_fits(lhs@, rhs@),
        ensures
            r@ == product(lhs@, rhs@),
    {
        proof {
            use_type_invariant(lhs);
            lemma_terms_map_degree(lhs.terms@);
        }
        let ghost ls = lhs.terms@;
        let n: usize = lhs.terms.len();
        let mut total = Polynomial::new();
        let mut i: usize = 0;
        let ghost mut done: nat = 0;
        while i < n
            invariant
                i <= n,
                n == ls.len(),
                ls == lhs.terms@,
                lhs.wf(),
                product_fits(lhs@, rhs@),
                total@ == product_below(lhs@, rhs@, done),
                i == 0 ==> done == 0,
                i > 0 ==> done == ls[i - 1].power + 1,
            decreases n - i,
        {
            let term: Term = lhs.terms[i];
            proof {
                lemma_terms_map_entry(ls, i as int);
                assert forall|k: nat| done <= k < term.power as nat implies coeff(lhs@, k) == 0 by {
                    lemma_terms_map_gap(ls, i as int, k);
                }
                if i > 0 {
                    assert(ls[i - 1].power < ls[i as int].power);
                }
                lemma_product_below_skip(lhs@, rhs@, done, term.power as nat);
            }
            let partial = Polynomial::term_times(term.power, term.coeff, rhs);
            total.combine(&partial, false);
            proof {
                done = (term.power + 1) as nat;
            }
            i = i + 1;
        }
        total
    }
}

impl core::ops::Add for Polynomial {
    type Output = Polynomial;

    /// The sum, coefficient by coefficient.
    fn add(self, rhs: Polynomial) -> (r: Polynomial)
        ensures
            r@ == sum(self@, rhs@),
    {
        let mut total = self;
        total.combine(&rhs, false);
        total
    }
}

/// What `+` asks of its operands. Its result is stated by the `ensures` of
/// `add`, over the model; no polynomial value is named for it here.
impl vstd::std_specs::ops::AddSpecImpl for Polynomial {
    open spec fn obeys_add_spec() -> bool {
        false
    }

    open spec fn add_req(self, rhs: Polynomial) -> bool {
        true
    }

    open spec fn add_spec(self, rhs: Polynomial) -> Polynomial {
        self
    }
}

impl core::ops::AddAssign for Polynomial {
    /// Adds `rhs` to this polynomial, coefficient by coefficient.
    fn add_assign(&mut self, rhs: Polynomial)
        ensures
            final(self)@ == sum(old(self)@, rhs@),
    {
        self.combine(&rhs, false);
    }
}

impl core::ops::Sub for Polynomial {
    type Output = Polynomial;

    /// The difference, coefficient by coefficient.
    fn sub(self, rhs: Polynomial) -> (r: Polynomial)
        ensures
            r@ == difference(self@, rhs@),
    {
        let mut total = self;
        total.combine(&rhs, true);
        total
    }
}

/// What `-` asks of its operands. Its result is stated by the `ensures` of
/// `sub`, over the model; no polynomial value is named for it here.
impl vstd::std_specs::ops::SubSpecImpl for Polynomial {
    open spec fn obeys_sub_spec() -> bool {
        false
    }

    open spec fn sub_req(self, rhs: Polynomial) -> bool {
        true
    }

    open spec fn sub_spec(self, rhs: Polynomial) -> Polynomial {
        self
    }
}

impl core::ops::SubAssign for Polynomial {
    /// Subtracts `rhs` from this polynomial, coefficient by coefficient.
    fn sub_assign(&mut self, rhs: Polynomial)
        ensures
            final(self)@ == difference(old(self)@, rhs@),
    {
        self.combine(&rhs, true);
    }
}

impl core::ops::Mul for Polynomial {
    type Output = Polynomial;

    /// The product: each term of `self`, in ascending order of the powers,
    /// times `rhs`, summed up.
    fn mul(self, rhs: Polynomial) -> (r: Polynomial)
        ensures
            r@ == product(self@, rhs@),
    {
        Polynomial::product_of(&self, &rhs)
    }
}

/// What `*` asks of its operands. Its result is stated by the `ensures` of
/// `mul`, over the model; no polynomial value is named for it here. It asks
/// that the powers of the two operands add up within a `usize`.
impl vstd::std_specs::ops::MulSpecImpl for Polynomial {
    open spec fn obeys_mul_spec() -> bool {
        false
    }

    open spec fn mul_req(self, rhs: Polynomial) -> bool {
        product_fits(self@, rhs@)
    }

    open spec fn mul_spec(self, rhs: Polynomial) -> Polynomial {
        self
    }
}

} // verus!
