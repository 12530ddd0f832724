//! Equality of polynomials: the same coefficient at every power.

use crate::model::{coeff, lemma_equal_by_coeffs};
use crate::polynomial::{
    index_of, lemma_terms_map_entry, lemma_terms_map_normal, Polynomial, Term,
};
use vstd::prelude::*;

verus! {

impl Polynomial {
    /// Whether each term of this polynomial is a term of `other`.
    fn within(&self, other: &Polynomial) -> (r: bool)
        ensures
            r == (forall|k: nat| self@.contains_key(k) ==> coeff(self@, k) == coeff(other@, k)),
    {
        proof {
            use_type_invariant(self);
        }
        let n: usize = self.terms.len();
        let mut i: usize = 0;
        while i < n
            invariant
                i <= n,
                n == self.terms@.len(),
                self.wf(),
                forall|j: int|
                    0 <= j < i ==> (#[trigger] self.terms@[j]).coeff@ == coeff(
                        other@,
                        self.terms@[j].power as nat,
                    ),
            decreases n - i,
        {
            let term: Term = self.terms[i];
            let theirs = other.coefficient(term.power);
            if theirs.raw != term.coeff.raw {
                proof {
                    lemma_terms_map_entry(self.terms@, i as int);
                }
                return false;
            }
            i = i + 1;
        }
        proof {
            assert forall|k: nat| self@.contains_key(k) implies coeff(self@, k) == coeff(
                other@,
                k,
            ) by {
                let j = index_of(self.terms@, k);
                assert(0 <= j < n && self.terms@[j].power as nat == k);
                lemma_terms_map_entry(self.terms@, j);
            }
        }
        true
    }

    /// Whether the two polynomials have the same coefficient at every power.
    /// Each is checked against the other.
    pub fn equals(&self, other: &Polynomial) -> (r: bool)
        ensures
            r == (self@ == other@),
    {
        let r = self.within(other) && other.within(self);
        proof {
            use_type_invariant(self);
            use_type_invariant(other);
            lemma_terms_map_normal(self.terms@);
            lemma_terms_map_normal(other.terms@);
            if r {
                assert forall|k: nat| coeff(self@, k) == coeff(other@, k) by {
                    if !self@.contains_key(k) && !other@.contains_key(k) {
                    }
                }
                lemma_equal_by_coeffs(self@, other@);
            }
        }
        r
    }
}

impl PartialEq for Polynomial {
    fn eq(&self, other: &Polynomial) -> (r: bool) {
        self.equals(other)
    }
}

impl vstd::std_specs::cmp::PartialEqSpecImpl for Polynomial {
    open spec fn obeys_eq_spec() -> bool {
        true
    }

    open spec fn eq_spec(&self, other: &Polynomial) -> bool {
        self@ == other@
    }
}

} // verus!
