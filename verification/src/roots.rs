//! Approximate real roots by a sweep in steps of `dx`.
//!
//! The sweep walks over `dx, 2 dx, 3 dx, ...` and reports each point at which
//! the polynomial changes its sign against the point before. It ends where
//! the polynomial and all its derivatives have one strict sign, or where the
//! next point would leave the number range. This is a heuristic: the end
//! condition is taken from the sampled values, and a root of even order
//! between two points, or one beyond the end, is not seen.

use crate::calculus::{derivative, lemma_reflection_keeps_powers, reflection};
use crate::error::PolynomialError;
use crate::evaluation::value;
use crate::fixed::{sign_change, Fixed, LIMIT};
use crate::model::{degree, zero};
use crate::polynomial::{
    holds_power, lemma_terms_map_degree, lemma_terms_map_entry, lemma_terms_map_normal,
    Polynomial,
};
use vstd::prelude::*;

verus! {

/// The `n`-th derivative of `a`.
pub open spec fn nth_derivative(a: Map<nat, int>, n: nat) -> Map<nat, int>
    decreases n,
{
    if n == 0 {
        a
    } else {
        derivative(nth_derivative(a, (n - 1) as nat))
    }
}

/// `a` and its first `n` derivatives are all positive at `x`.
pub open spec fn all_positive(a: Map<nat, int>, n: nat, x: int) -> bool {
    forall|i: nat| i <= n ==> value(#[trigger] nth_derivative(a, i), x) > 0
}

/// `a` and its first `n` derivatives are all negative at `x`.
pub open spec fn all_negative(a: Map<nat, int>, n: nat, x: int) -> bool {
    forall|i: nat| i <= n ==> value(#[trigger] nth_derivative(a, i), x) < 0
}

/// The sweep ends at `x`: `a` and its derivatives, as many as its degree,
/// have one strict sign there.
pub open spec fn settled(a: Map<nat, int>, x: int) -> bool {
    all_positive(a, degree(a)->0, x) || all_negative(a, degree(a)->0, x)
}

/// The points after `x` that the sweep reports, in steps of `dx`.
pub open spec fn sweep(a: Map<nat, int>, x: int, dx: int) -> Seq<int>
    decreases LIMIT - x,
    when dx > 0 && x <= LIMIT
{
    if settled(a, x) || x + dx > LIMIT {
        Seq::empty()
    } else {
        let found = if sign_change(value(a, x + dx), value(a, x)) {
            seq![x + dx]
        } else {
            Seq::empty()
        };
        found + sweep(a, x + dx, dx)
    }
}

/// `a` has exactly one term.
pub open spec fn one_term(a: Map<nat, int>) -> bool {
    degree(a) is Some && a.remove(degree(a)->0) == zero()
}

/// Each element negated.
pub open spec fn negated(s: Seq<int>) -> Seq<int> {
    Seq::new(s.len(), |i: int| -s[i])
}

/// The roots reported for `a` with the step `dx`: none for the zero
/// polynomial and for a constant; zero alone for any other single term; else
/// zero, if `a` vanishes there, then the positive roots, then the negative
/// ones, which are the positive roots of the reflection, negated.
pub open spec fn approximate_roots(a: Map<nat, int>, dx: int) -> Seq<int> {
    if a == zero() {
        Seq::empty()
    } else if one_term(a) {
        if a.contains_key(0) {
            Seq::empty()
        } else {
            seq![0int]
        }
    } else {
        let at_zero = if value(a, 0) == 0 {
            seq![0int]
        } else {
            Seq::empty()
        };
        at_zero + sweep(a, dx, dx) + negated(sweep(reflection(a), dx, dx))
    }
}

/// `chain` holds the derivatives of `a`, from the first up to the one whose
/// order is the degree of `a`.
spec fn is_chain_of(chain: Seq<Polynomial>, a: Map<nat, int>) -> bool {
    &&& chain.len() == degree(a)->0
    &&& forall|j: int|
        0 <= j < chain.len() ==> (#[trigger] chain[j])@ == nth_derivative(a, (j + 1) as nat)
}

/// The raw values of a sequence of numbers.
pub open spec fn raws(s: Seq<Fixed>) -> Seq<int> {
    Seq::new(s.len(), |i: int| s[i]@)
}

impl Polynomial {
    /// The derivatives of this polynomial, from the first up to the one whose
    /// order is the degree.
    fn derivative_chain(&self) -> (chain: Vec<Polynomial>)
        requires
            degree(self@) is Some,
        ensures
            is_chain_of(chain@, self@),
    {
        let order: usize = match self.degree() {
            Some(d) => d,
            None => 0,
        };
        let mut chain: Vec<Polynomial> = Vec::new();
        let mut i: usize = 0;
        while i < order
            invariant
                i <= order,
                chain@.len() == i,
                forall|j: int|
                    0 <= j < chain@.len() ==> (#[trigger] chain@[j])@ == nth_derivative(
                        self@,
                        (j + 1) as nat,
                    ),
            decreases order - i,
        {
            let next = if i == 0 {
                self.derivative()
            } else {
                chain[i - 1].derivative()
            };
            proof {
                assert(nth_derivative(self@, 1) == derivative(nth_derivative(self@, 0)));
                assert(next@ == nth_derivative(self@, (i + 1) as nat));
            }
            chain.push(next);
            i = i + 1;
        }
        chain
    }

    /// Whether the sweep ends at `x`, where this polynomial has the value `here`.
    fn settled_at(&self, chain: &Vec<Polynomial>, x: Fixed, here: Fixed) -> (r: bool)
        requires
            degree(self@) is Some,
            is_chain_of(chain@, self@),
            here@ == value(self@, x@),
        ensures
            r == settled(self@, x@),
    {
        let n: usize = chain.len();
        let mut positive: bool = here.is_positive();
        let mut negative: bool = here.is_negative();
        let mut i: usize = 0;
        proof {
            assert(nth_derivative(self@, 0) == self@);
        }
        while i < n
            invariant
                i <= n,
                n == chain@.len(),
                is_chain_of(chain@, self@),
                positive == all_positive(self@, i as nat, x@),
                negative == all_negative(self@, i as nat, x@),
            decreases n - i,
        {
            let v: Fixed = chain[i].at(x);
            proof {
                assert(chain@[i as int]@ == nth_derivative(self@, (i + 1) as nat));
                if all_positive(self@, (i + 1) as nat, x@) {
                    assert forall|k: nat| k <= i implies value(
                        #[trigger] nth_derivative(self@, k),
                        x@,
                    ) > 0 by {
                        assert(k <= i + 1);
                    }
                }
                if all_negative(self@, (i + 1) as nat, x@) {
                    assert forall|k: nat| k <= i implies value(
                        #[trigger] nth_derivative(self@, k),
                        x@,
                    ) < 0 by {
                        assert(k <= i + 1);
                    }
                }
            }
            positive = positive && v.is_positive();
            negative = negative && v.is_negative();
            i = i + 1;
        }
        positive || negative
    }

    /// The positive roots that the sweep reports for a polynomial other than
    /// zero.
    pub fn positive_real_roots(&self, dx: Fixed) -> (roots: Vec<Fixed>)
        requires
            dx@ > 0,
            degree(self@) is Some,
        ensures
            raws(roots@) == sweep(self@, dx@, dx@),
            forall|j: int| 0 <= j < roots@.len() ==> (#[trigger] roots@[j])@ > 0,
    {
        let chain = self.derivative_chain();
        let mut roots: Vec<Fixed> = Vec::new();
        let mut x: Fixed = dx;
        let mut here: Fixed = self.at(x);
        proof {
            assert(raws(roots@) =~= Seq::<int>::empty());
        }
        loop
            invariant
                dx@ > 0,
                x@ > 0,
                degree(self@) is Some,
                is_chain_of(chain@, self@),
                here@ == value(self@, x@),
                sweep(self@, dx@, dx@) == raws(roots@) + sweep(self@, x@, dx@),
                forall|j: int| 0 <= j < roots@.len() ==> (#[trigger] roots@[j])@ > 0,
            ensures
                raws(roots@) == sweep(self@, dx@, dx@),
                forall|j: int| 0 <= j < roots@.len() ==> (#[trigger] roots@[j])@ > 0,
            decreases LIMIT - x@,
        {
            if self.settled_at(&chain, x, here) || x.raw > LIMIT - dx.raw {
                proof {
                    assert(sweep(self@, x@, dx@) =~= Seq::<int>::empty());
                    assert(raws(roots@) + Seq::<int>::empty() =~= raws(roots@));
                }
                break;
            }
            let ghost before = raws(roots@);
            let ghost from = x@;
            let next: Fixed = x.add(dx);
            let there: Fixed = self.at(next);
            if there.brackets_zero_with(here) {
                roots.push(next);
            }
            proof {
                let found = if sign_change(value(self@, from + dx@), value(self@, from)) {
                    seq![from + dx@]
                } else {
                    Seq::<int>::empty()
                };
                assert(sweep(self@, from, dx@) == found + sweep(self@, from + dx@, dx@));
                assert(raws(roots@) =~= before + found);
                assert(before + (found + sweep(self@, from + dx@, dx@)) =~= (before + found)
                    + sweep(self@, from + dx@, dx@));
            }
            x = next;
            here = there;
        }
        roots
    }

    /// The approximate real roots, found in steps of `dx`, which has to be
    /// positive.
    pub fn real_roots(&self, dx: Fixed) -> (r: Result<Vec<Fixed>, PolynomialError>)
        ensures
            dx@ <= 0 ==> r is Err && r->Err_0 == PolynomialError::InvalidStep,
            dx@ > 0 ==> r is Ok && raws(r->Ok_0@) == approximate_roots(self@, dx@),
    {
        if !dx.is_positive() {
            return Err(PolynomialError::InvalidStep);
        }
        proof {
            use_type_invariant(self);
            lemma_terms_map_degree(self.terms@);
        }
        let mut roots: Vec<Fixed> = Vec::new();
        if self.terms.len() == 0 {
            proof {
                assert(self@ =~= zero());
                assert(raws(roots@) =~= Seq::<int>::empty());
            }
            return Ok(roots);
        }
        proof {
            lemma_terms_map_entry(self.terms@, 0);
            assert(self@ != zero());
        }
        if self.terms.len() == 1 {
            proof {
                let d = self.terms@[0].power as nat;
                assert(self@.remove(d) =~= zero());
                assert(one_term(self@));
            }
            if self.terms[0].power != 0 {
                roots.push(Fixed::zero());
                proof {
                    assert(!self@.contains_key(0));
                    assert(raws(roots@) =~= seq![0int]);
                }
            } else {
                proof {
                    assert(raws(roots@) =~= Seq::<int>::empty());
                }
            }
            return Ok(roots);
        }
        proof {
            let d = self.terms@.last().power as nat;
            lemma_terms_map_entry(self.terms@, self.terms@.len() - 1);
            assert(self.terms@[0].power < self.terms@[self.terms@.len() - 1].power);
            assert(self@.remove(d).contains_key(self.terms@[0].power as nat));
            assert(!one_term(self@));
        }
        if self.at(Fixed::zero()).is_zero() {
            roots.push(Fixed::zero());
        }
        let ghost at_zero = raws(roots@);
        let mut rising = self.positive_real_roots(dx);
        let ghost rising_raws = raws(rising@);
        roots.append(&mut rising);
        let mirror = self.reflect_about_y_axis();
        proof {
            use_type_invariant(&mirror);
            lemma_terms_map_degree(mirror.terms@);
            lemma_terms_map_normal(self.terms@);
            lemma_reflection_keeps_powers(self@);
            let low = self.terms@[0].power as nat;
            assert(self@.contains_key(low));
            assert(reflection(self@).contains_key(low));
            assert(mirror@.contains_key(low));
            if mirror.terms@.len() == 0 {
                assert(!holds_power(mirror.terms@, low));
            }
        }
        let falling = mirror.positive_real_roots(dx);
        let ghost so_far = raws(roots@);
        let mut i: usize = 0;
        while i < falling.len()
            invariant
                i <= falling@.len(),
                raws(roots@) == so_far + negated(raws(falling@)).subrange(0, i as int),
            decreases falling@.len() - i,
        {
            let ghost before = raws(roots@);
            roots.push(falling[i].neg());
            proof {
                assert(raws(roots@) =~= before.push(-falling@[i as int]@));
                assert(negated(raws(falling@)).subrange(0, i + 1) =~= negated(
                    raws(falling@),
                ).subrange(0, i as int).push(-falling@[i as int]@));
            }
            i = i + 1;
        }
        proof {
            assert(negated(raws(falling@)).subrange(0, falling@.len() as int) =~= negated(
                raws(falling@),
            ));
            assert(so_far =~= at_zero + rising_raws);
        }
        Ok(roots)
    }
}

} // verus!
