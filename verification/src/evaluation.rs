//! The value of a polynomial at a point.

use crate::fixed::{fixed_mul, fixed_pow, in_range, sat_add, Fixed};
use crate::model::{coeff, degree};
use crate::polynomial::{
    lemma_terms_map_degree, lemma_terms_map_entry, lemma_terms_map_gap, Polynomial, Term,
};
use vstd::prelude::*;

verus! {

/// The terms of `a` below `x^n` evaluated at `x` and summed up in ascending
/// order of their powers.
pub open spec fn value_below(a: Map<nat, int>, x: int, n: nat) -> int
    decreases n,
{
    if n == 0 {
        0
    } else {
        sat_add(
            value_below(a, x, (n - 1) as nat),
            fixed_mul(coeff(a, (n - 1) as nat), fixed_pow(x, (n - 1) as nat)),
        )
    }
}

/// The value of `a` at `x`.
pub open spec fn value(a: Map<nat, int>, x: int) -> int {
    match degree(a) {
        Some(d) => value_below(a, x, d + 1),
        None => 0,
    }
}

/// The partial values lie within the range.
pub proof fn lemma_value_below_range(a: Map<nat, int>, x: int, n: nat)
    ensures
        in_range(value_below(a, x, n)),
    decreases n,
{
}

/// Powers at which `a` has no term add nothing to the partial values.
pub proof fn lemma_value_below_skip(a: Map<nat, int>, x: int, lo: nat, hi: nat)
    requires
        lo <= hi,
        forall|k: nat| lo <= k < hi ==> coeff(a, k) == 0,
    ensures
        value_below(a, x, hi) == value_below(a, x, lo),
    decreases hi - lo,
{
    if lo < hi {
        let n = (hi - 1) as nat;
        lemma_value_below_skip(a, x, lo, n);
        lemma_value_below_range(a, x, n);
        assert(coeff(a, n) == 0);
        let y = fixed_pow(x, n);
        assert(0 * y == 0) by (nonlinear_arith);
    }
}

impl Polynomial {
    /// The value at `x`: the terms `c x^k`, taken in ascending order of the
    /// powers, each computed in fixed point and added with saturation.
    pub fn at(&self, x: Fixed) -> (v: Fixed)
        ensures
            v@ == value(self@, x@),
    {
        proof {
            use_type_invariant(self);
            lemma_terms_map_degree(self.terms@);
        }
        let ghost ts = self.terms@;
        let n: usize = self.terms.len();
        let mut total: Fixed = Fixed::zero();
        let mut raised: Fixed = Fixed::one();
        let mut reached: usize = 0;
        let mut i: usize = 0;
        let ghost mut done: nat = 0;
        while i < n
            invariant
                i <= n,
                n == ts.len(),
                ts == self.terms@,
                self.wf(),
                total@ == value_below(self@, x@, done),
                raised@ == fixed_pow(x@, reached as nat),
                i == 0 ==> done == 0 && reached == 0,
                i > 0 ==> done == ts[i - 1].power + 1 && reached == ts[i - 1].power,
            decreases n - i,
        {
            let term: Term = self.terms[i];
            proof {
                if i > 0 {
                    assert(ts[i - 1].power < ts[i as int].power);
                }
                assert forall|k: nat| done <= k < term.power as nat implies coeff(self@, k)
                    == 0 by {
                    lemma_terms_map_gap(ts, i as int, k);
                }
                lemma_value_below_skip(self@, x@, done, term.power as nat);
                lemma_terms_map_entry(ts, i as int);
            }
            while reached < term.power
                invariant
                    reached <= term.power,
                    raised@ == fixed_pow(x@, reached as nat),
                decreases term.power - reached,
            {
                raised = raised.mul(x);
                reached = reached + 1;
            }
            total = total.add(term.coeff.mul(raised));
            proof {
                done = (term.power + 1) as nat;
            }
            i = i + 1;
        }
        total
    }
}

} // verus!
