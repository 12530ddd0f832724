//! Derivative, integral and reflection of a polynomial.

use crate::fixed::{scale_down, scale_up, Fixed};
use crate::model::{coeff, lemma_equal_by_coeffs, normal, sparse};
use crate::polynomial::{
    among_first, lemma_among_first_all, lemma_among_first_next, lemma_terms_map_coeff,
    lemma_terms_map_entry, lemma_terms_map_normal, Polynomial, Term,
};
use vstd::prelude::*;

verus! {

/// The derivative: the coefficient of `x^k` is `k + 1` times that of `x^(k+1)`.
pub open spec fn derivative(a: Map<nat, int>) -> Map<nat, int> {
    sparse(|k: nat| scale_up(coeff(a, k + 1), k + 1))
}

/// The integral with constant term `c`: the coefficient of `x^k`, `k > 0`, is
/// that of `x^(k-1)` divided by `k`.
pub open spec fn integral(a: Map<nat, int>, c: int) -> Map<nat, int> {
    sparse(
        |k: nat|
            if k == 0 {
                c
            } else {
                scale_down(coeff(a, (k - 1) as nat), k)
            },
    )
}

/// The polynomial mirrored at the vertical axis: the coefficients of the odd
/// powers change their sign.
pub open spec fn reflection(a: Map<nat, int>) -> Map<nat, int> {
    sparse(
        |k: nat|
            if k % 2 == 1 {
                -coeff(a, k)
            } else {
                coeff(a, k)
            },
    )
}

/// The reflection has a term exactly where the polynomial has one.
pub proof fn lemma_reflection_keeps_powers(a: Map<nat, int>)
    requires
        normal(a),
    ensures
        forall|k: nat| a.contains_key(k) <==> #[trigger] reflection(a).contains_key(k),
{
    assert forall|k: nat| a.contains_key(k) <==> #[trigger] reflection(a).contains_key(k) by {
        if a.contains_key(k) {
            assert(a[k] != 0);
        }
    }
}

impl Polynomial {
    /// The derivative: each term `c x^k` with `k > 0` becomes `k c x^(k-1)`,
    /// the product saturated; a constant term vanishes.
    pub fn derivative(&self) -> (r: Polynomial)
        ensures
            r@ == derivative(self@),
    {
        proof {
            use_type_invariant(self);
        }
        let ghost ts = self.terms@;
        let n: usize = self.terms.len();
        let mut result = Polynomial::new();
        let mut i: usize = 0;
        while i < n
            invariant
                i <= n,
                n == ts.len(),
                ts == self.terms@,
                self.wf(),
                forall|k: nat|
                    #[trigger] coeff(result@, k) == (if among_first(ts, i as int, k + 1) {
                        scale_up(coeff(self@, k + 1), k + 1)
                    } else {
                        0
                    }),
            decreases n - i,
        {
            let term: Term = self.terms[i];
            let ghost before = result@;
            if term.power > 0 {
                result.put(term.power - 1, term.coeff.times(term.power));
            }
            proof {
                lemma_terms_map_entry(ts, i as int);
                assert forall|k: nat|
                    #[trigger] coeff(result@, k) == (if among_first(ts, i + 1, k + 1) {
                        scale_up(coeff(self@, k + 1), k + 1)
                    } else {
                        0
                    }) by {
                    lemma_among_first_next(ts, i as int, k + 1);
                    assert(coeff(before, k) == (if among_first(ts, i as int, k + 1) {
                        scale_up(coeff(self@, k + 1), k + 1)
                    } else {
                        0
                    }));
                }
            }
            i = i + 1;
        }
        proof {
            use_type_invariant(&result);
            lemma_terms_map_normal(result.terms@);
            assert forall|k: nat| coeff(result@, k) == coeff(derivative(self@), k) by {
                lemma_among_first_all(ts, k + 1);
                lemma_terms_map_coeff(ts, k + 1);
                assert(0 * (k + 1) == 0);
            }
            lemma_equal_by_coeffs(result@, derivative(self@));
        }
        result
    }

    /// The integral with the constant term `constant`: each term `c x^k`
    /// becomes `(c / (k+1)) x^(k+1)`, the quotient rounded toward zero.
    pub fn integral(&self, constant: Fixed) -> (r: Polynomial)
        requires
            !self@.contains_key(usize::MAX as nat),
        ensures
            r@ == integral(self@, constant@),
    {
        proof {
            use_type_invariant(self);
        }
        let ghost ts = self.terms@;
        let n: usize = self.terms.len();
        let mut result = Polynomial::new();
        let mut i: usize = 0;
        while i < n
            invariant
                i <= n,
                n == ts.len(),
                ts == self.terms@,
                self.wf(),
                !self@.contains_key(usize::MAX as nat),
                forall|k: nat|
                    #[trigger] coeff(result@, k) == (if k > 0 && among_first(
                        ts,
                        i as int,
                        (k - 1) as nat,
                    ) {
                        scale_down(coeff(self@, (k - 1) as nat), k)
                    } else {
                        0
                    }),
            decreases n - i,
        {
            let term: Term = self.terms[i];
            let ghost before = result@;
            proof {
                lemma_terms_map_entry(ts, i as int);
                assert(self@.contains_key(term.power as nat));
            }
            result.put(term.power + 1, term.coeff.over(term.power + 1));
            proof {
                assert forall|k: nat|
                    #[trigger] coeff(result@, k) == (if k > 0 && among_first(
                        ts,
                        i + 1,
                        (k - 1) as nat,
                    ) {
                        scale_down(coeff(self@, (k - 1) as nat), k)
                    } else {
                        0
                    }) by {
                    if k > 0 {
                        lemma_among_first_next(ts, i as int, (k - 1) as nat);
                    }
                    assert(coeff(before, k) == (if k > 0 && among_first(
                        ts,
                        i as int,
                        (k - 1) as nat,
                    ) {
                        scale_down(coeff(self@, (k - 1) as nat), k)
                    } else {
                        0
                    }));
                }
            }
            i = i + 1;
        }
        let ghost filled = result@;
        result.put(0, constant);
        proof {
            use_type_invariant(&result);
            lemma_terms_map_normal(result.terms@);
            assert forall|k: nat| coeff(result@, k) == coeff(integral(self@, constant@), k) by {
                assert(coeff(filled, k) == (if k > 0 && among_first(
                    ts,
                    n as int,
                    (k - 1) as nat,
                ) {
                    scale_down(coeff(self@, (k - 1) as nat), k)
                } else {
                    0
                }));
                if k > 0 {
                    lemma_among_first_all(ts, (k - 1) as nat);
                    lemma_terms_map_coeff(ts, (k - 1) as nat);
                    assert(0int / (k as int) == 0);
                }
            }
            lemma_equal_by_coeffs(result@, integral(self@, constant@));
        }
        result
    }

    /// The polynomial mirrored at the vertical axis: the coefficient of each
    /// odd power changes its sign.
    pub fn reflect_about_y_axis(&self) -> (r: Polynomial)
        ensures
            r@ == reflection(self@),
    {
        proof {
            use_type_invariant(self);
        }
        let ghost ts = self.terms@;
        let n: usize = self.terms.len();
        let mut result = Polynomial::new();
        let mut i: usize = 0;
        while i < n
            invariant
                i <= n,
                n == ts.len(),
                ts == self.terms@,
                self.wf(),
                forall|k: nat|
                    #[trigger] coeff(result@, k) == (if among_first(ts, i as int, k) {
                        if k % 2 == 1 {
                            -coeff(self@, k)
                        } else {
                            coeff(self@, k)
                        }
                    } else {
                        0
                    }),
            decreases n - i,
        {
            let term: Term = self.terms[i];
            let ghost before = result@;
            let mirrored: Fixed = if term.power % 2 == 1 {
                term.coeff.neg()
            } else {
                term.coeff
            };
            result.put(term.power, mirrored);
            proof {
                lemma_terms_map_entry(ts, i as int);
                assert forall|k: nat|
                    #[trigger] coeff(result@, k) == (if among_first(ts, i + 1, k) {
                        if k % 2 == 1 {
                            -coeff(self@, k)
                        } else {
                            coeff(self@, k)
                        }
                    } else {
                        0
                    }) by {
                    lemma_among_first_next(ts, i as int, k);
                    assert(coeff(before, k) == (if among_first(ts, i as int, k) {
                        if k % 2 == 1 {
                            -coeff(self@, k)
                        } else {
                            coeff(self@, k)
                        }
                    } else {
                        0
                    }));
                }
            }
            i = i + 1;
        }
        proof {
            use_type_invariant(&result);
            lemma_terms_map_normal(result.terms@);
            assert forall|k: nat| coeff(result@, k) == coeff(reflection(self@), k) by {
                lemma_among_first_all(ts, k);
                lemma_terms_map_coeff(ts, k);
            }
            lemma_equal_by_coeffs(result@, reflection(self@));
        }
        result
    }
}

} // verus!
