//! The sparse polynomial: its terms, kept in ascending order of their powers
//! and free of zero coefficients.

use crate::error::PolynomialError;
use crate::fixed::{in_range, Fixed};
use crate::model::{
    coeff, degree, is_degree, lemma_degree_is, lemma_degree_none, normal, set_coeff, zero,
};
use vstd::prelude::*;

verus! {

/// One term `coeff * x^power`.
#[derive(Clone, Copy, Debug, PartialEq, Eq, Structural)]
pub struct Term {
    pub power: usize,
    pub coeff: Fixed,
}

/// The powers of `s` grow strictly from term to term.
pub open spec fn ascending(s: Seq<Term>) -> bool {
    forall|i: int, j: int| 0 <= i < j < s.len() ==> s[i].power < s[j].power
}

/// Each coefficient of `s` is a number of the range other than zero.
pub open spec fn proper(s: Seq<Term>) -> bool {
    forall|i: int| 0 <= i < s.len() ==> s[i].coeff@ != 0 && in_range(s[i].coeff@)
}

/// Some term of `s` has the power `k`.
pub open spec fn holds_power(s: Seq<Term>, k: nat) -> bool {
    exists|i: int| 0 <= i < s.len() && s[i].power as nat == k
}

/// The place in `s` of a term with the power `k`.
pub open spec fn index_of(s: Seq<Term>, k: nat) -> int {
    choose|i: int| 0 <= i < s.len() && s[i].power as nat == k
}

/// The map from powers to raw coefficients that the terms `s` stand for.
pub open spec fn terms_map(s: Seq<Term>) -> Map<nat, int> {
    Map::new(|k: nat| holds_power(s, k), |k: nat| s[index_of(s, k)].coeff@)
}

/// One of the first `n` terms of `s` has the power `k`.
pub open spec fn among_first(s: Seq<Term>, n: int, k: nat) -> bool {
    exists|j: int| 0 <= j < n && j < s.len() && s[j].power as nat == k
}

/// The polynomial built from a list of powers and coefficients, each pair
/// set in its turn: a later pair overrides an earlier one with the same power.
pub open spec fn built(pairs: Seq<(isize, Fixed)>) -> Map<nat, int>
    decreases pairs.len(),
{
    if pairs.len() == 0 {
        zero()
    } else {
        set_coeff(built(pairs.drop_last()), pairs.last().0 as nat, pairs.last().1@)
    }
}

/// Each term of an ascending sequence is an entry of its map.
pub proof fn lemma_terms_map_entry(s: Seq<Term>, i: int)
    requires
        ascending(s),
        0 <= i < s.len(),
    ensures
        terms_map(s).contains_key(s[i].power as nat),
        terms_map(s)[s[i].power as nat] == s[i].coeff@,
        coeff(terms_map(s), s[i].power as nat) == s[i].coeff@,
{
    let k = s[i].power as nat;
    assert(holds_power(s, k));
    let j = index_of(s, k);
    assert(0 <= j < s.len() && s[j].power as nat == k);
    if j < i {
        assert(s[j].power < s[i].power);
    }
    if i < j {
        assert(s[i].power < s[j].power);
    }
}

/// A map whose entries are exactly the terms of `s` is the map of `s`.
pub proof fn lemma_terms_map_is(s: Seq<Term>, m: Map<nat, int>)
    requires
        ascending(s),
        forall|k: nat| m.contains_key(k) <==> holds_power(s, k),
        forall|i: int| 0 <= i < s.len() ==> m[s[i].power as nat] == s[i].coeff@,
    ensures
        terms_map(s) == m,
{
    assert forall|k: nat| terms_map(s).contains_key(k) implies terms_map(s)[k] == m[k] by {
        let j = index_of(s, k);
        assert(0 <= j < s.len() && s[j].power as nat == k);
    }
    assert(terms_map(s) =~= m);
}

/// The map of proper ascending terms is in normal form, its coefficients lie
/// within the range and its powers fit a `usize`.
pub proof fn lemma_terms_map_normal(s: Seq<Term>)
    requires
        ascending(s),
        proper(s),
    ensures
        normal(terms_map(s)),
        forall|k: nat| #[trigger]
            terms_map(s).contains_key(k) ==> in_range(terms_map(s)[k]) && k <= usize::MAX as nat,
{
    assert forall|k: nat| terms_map(s).contains_key(k) implies terms_map(s)[k] != 0 && in_range(
        terms_map(s)[k],
    ) && k <= usize::MAX as nat by {
        let j = index_of(s, k);
        assert(0 <= j < s.len() && s[j].power as nat == k);
    }
}

/// The coefficient of a power that no term has is zero; that of a power that
/// a term has is not.
pub proof fn lemma_terms_map_coeff(s: Seq<Term>, k: nat)
    requires
        ascending(s),
        proper(s),
    ensures
        holds_power(s, k) <==> coeff(terms_map(s), k) != 0,
        in_range(coeff(terms_map(s), k)),
{
    if holds_power(s, k) {
        let j = index_of(s, k);
        assert(0 <= j < s.len() && s[j].power as nat == k);
        lemma_terms_map_entry(s, j);
    }
}

/// The degree of the map of a sequence of terms is the power of its last
/// term.
pub proof fn lemma_terms_map_degree(s: Seq<Term>)
    requires
        ascending(s),
    ensures
        s.len() == 0 ==> degree(terms_map(s)) is None,
        s.len() > 0 ==> degree(terms_map(s)) == Some(s.last().power as nat),
{
    if s.len() == 0 {
        lemma_degree_none(terms_map(s));
    } else {
        let top = s.last().power as nat;
        lemma_terms_map_entry(s, s.len() - 1);
        assert forall|k: nat| terms_map(s).contains_key(k) implies k <= top by {
            let j = index_of(s, k);
            assert(0 <= j < s.len() && s[j].power as nat == k);
            if j < s.len() - 1 {
                assert(s[j].power < s[s.len() - 1].power);
            }
        }
        assert(is_degree(terms_map(s), top));
        lemma_degree_is(terms_map(s), top);
    }
}

/// Between the powers of two neighbouring terms, and below the power of the
/// first term, every coefficient is zero.
pub proof fn lemma_terms_map_gap(s: Seq<Term>, i: int, k: nat)
    requires
        ascending(s),
        0 <= i < s.len(),
        k < s[i].power as nat,
        i > 0 ==> k > s[i - 1].power as nat,
    ensures
        coeff(terms_map(s), k) == 0,
{
    if holds_power(s, k) {
        let j = index_of(s, k);
        assert(0 <= j < s.len() && s[j].power as nat == k);
        if j < i {
            if j < i - 1 {
                assert(s[j].power < s[i - 1].power);
            }
        } else if j > i {
            assert(s[i].power < s[j].power);
        }
    }
}

/// What one more term adds to the first `i` terms.
pub proof fn lemma_among_first_next(s: Seq<Term>, i: int, k: nat)
    requires
        ascending(s),
        0 <= i < s.len(),
    ensures
        among_first(s, i + 1, k) <==> (among_first(s, i, k) || s[i].power as nat == k),
        !among_first(s, i, s[i].power as nat),
{
    if among_first(s, i, k) {
        let j = choose|j: int| 0 <= j < i && j < s.len() && s[j].power as nat == k;
        assert(0 <= j < i + 1 && j < s.len() && s[j].power as nat == k);
    }
    if s[i].power as nat == k {
        assert(0 <= i < i + 1 && i < s.len() && s[i].power as nat == k);
    }
    if among_first(s, i + 1, k) {
        let j = choose|j: int| 0 <= j < i + 1 && j < s.len() && s[j].power as nat == k;
        if j != i {
            assert(0 <= j < i && j < s.len() && s[j].power as nat == k);
        }
    }
    if among_first(s, i, s[i].power as nat) {
        let j = choose|j: int| 0 <= j < i && j < s.len() && s[j].power as nat == s[i].power as nat;
        assert(s[j].power < s[i].power);
    }
}

/// All the terms together hold exactly the powers of the sequence; no terms
/// hold none.
pub proof fn lemma_among_first_all(s: Seq<Term>, k: nat)
    ensures
        among_first(s, s.len() as int, k) <==> holds_power(s, k),
        !among_first(s, 0, k),
{
    if among_first(s, s.len() as int, k) {
        let j = choose|j: int| 0 <= j < s.len() && j < s.len() && s[j].power as nat == k;
        assert(0 <= j < s.len() && s[j].power as nat == k);
    }
    if holds_power(s, k) {
        let j = index_of(s, k);
        assert(0 <= j < s.len() && j < s.len() && s[j].power as nat == k);
    }
}

/// A sparse polynomial with fixed-point coefficients.
#[derive(Debug)]
pub struct Polynomial {
    pub(crate) terms: Vec<Term>,
}

impl Polynomial {
    /// The terms are in ascending order of their powers, and each
    /// coefficient is a number of the range other than zero.
    #[verifier::type_invariant]
    pub open(crate) spec fn wf(&self) -> bool {
        ascending(self.terms@) && proper(self.terms@)
    }

    /// The map from powers to raw coefficients.
    pub open(crate) spec fn view(&self) -> Map<nat, int> {
        terms_map(self.terms@)
    }

    /// The zero polynomial.
    pub fn new() -> (p: Polynomial)
        ensures
            p@ == zero(),
    {
        let p = Polynomial { terms: Vec::new() };
        assert(p@ =~= zero());
        p
    }

    /// The polynomial with the given powers and coefficients, set one after
    /// the other. A negative power anywhere in the list is refused.
    pub fn from_terms(pairs: &[(isize, Fixed)]) -> (r: Result<Polynomial, PolynomialError>)
        ensures
            (exists|i: int| 0 <= i < pairs@.len() && pairs@[i].0 < 0) ==> r is Err && r->Err_0
                == PolynomialError::InvalidPower,
            (forall|i: int| 0 <= i < pairs@.len() ==> pairs@[i].0 >= 0) ==> r is Ok && r->Ok_0@
                == built(pairs@),
    {
        let mut result = Polynomial::new();
        let n: usize = pairs.len();
        let mut i: usize = 0;
        while i < n
            invariant
                i <= n,
                n == pairs@.len(),
                forall|j: int| 0 <= j < i ==> pairs@[j].0 >= 0,
                result@ == built(pairs@.subrange(0, i as int)),
            decreases n - i,
        {
            let pair: (isize, Fixed) = pairs[i];
            if pair.0 < 0 {
                return Err(PolynomialError::InvalidPower);
            }
            result.put(pair.0 as usize, pair.1);
            proof {
                assert(pairs@.subrange(0, i + 1).drop_last() =~= pairs@.subrange(0, i as int));
            }
            i = i + 1;
        }
        proof {
            assert(pairs@.subrange(0, n as int) =~= pairs@);
        }
        Ok(result)
    }

    /// The place of the first term whose power is at least `power`.
    pub(crate) fn position(&self, power: usize) -> (idx: usize)
        ensures
            idx <= self.terms@.len(),
            forall|i: int| 0 <= i < idx ==> self.terms@[i].power < power,
            forall|i: int| idx <= i < self.terms@.len() ==> self.terms@[i].power >= power,
    {
        proof {
            use_type_invariant(self);
        }
        let mut lo: usize = 0;
        let mut hi: usize = self.terms.len();
        while lo < hi
            invariant
                lo <= hi <= self.terms@.len(),
                ascending(self.terms@),
                forall|i: int| 0 <= i < lo ==> self.terms@[i].power < power,
                forall|i: int| hi <= i < self.terms@.len() ==> self.terms@[i].power >= power,
            decreases hi - lo,
        {
            let mid: usize = lo + (hi - lo) / 2;
            if self.terms[mid].power < power {
                lo = mid + 1;
            } else {
                hi = mid;
            }
        }
        lo
    }

    /// The coefficient of `x^power`; zero where no term has that power.
    pub fn coefficient(&self, power: usize) -> (c: Fixed)
        ensures
            c@ == coeff(self@, power as nat),
    {
        proof {
            use_type_invariant(self);
        }
        let idx: usize = self.position(power);
        if idx < self.terms.len() && self.terms[idx].power == power {
            proof {
                lemma_terms_map_entry(self.terms@, idx as int);
            }
            self.terms[idx].coeff
        } else {
            assert(!holds_power(self.terms@, power as nat));
            Fixed::zero()
        }
    }

    /// Sets the coefficient of `x^power` to `value`. A zero removes the term.
    pub fn put(&mut self, power: usize, value: Fixed)
        ensures
            final(self)@ == set_coeff(old(self)@, power as nat, value@),
    {
        proof {
            use_type_invariant(&*self);
        }
        let idx: usize = self.position(power);
        let found: bool = idx < self.terms.len() && self.terms[idx].power == power;
        proof {
            use_type_invariant(value);
        }
        let ghost before = self.terms@;
        let ghost target = set_coeff(terms_map(before), power as nat, value@);
        let mut terms: Vec<Term> = Vec::new();
        std::mem::swap(&mut terms, &mut self.terms);
        if value.is_zero() {
            if found {
                let _ = terms.remove(idx);
                proof {
                    let after = terms@;
                    assert(ascending(after));
                    assert(proper(after));
                    assert forall|k: nat| target.contains_key(k) <==> holds_power(after, k) by {
                        if holds_power(after, k) {
                            let j = index_of(after, k);
                            assert(0 <= j < after.len() && after[j].power as nat == k);
                            let i = if j < idx { j } else { j + 1 };
                            assert(before[i].power as nat == k);
                            assert(holds_power(before, k));
                            if i < idx {
                                assert(before[i].power < before[idx as int].power);
                            } else {
                                assert(before[idx as int].power < before[i].power);
                            }
                        }
                        if target.contains_key(k) {
                            let i = index_of(before, k);
                            assert(0 <= i < before.len() && before[i].power as nat == k);
                            let j = if i < idx { i } else { i - 1 };
                            assert(after[j].power as nat == k);
                        }
                    }
                    assert forall|j: int| 0 <= j < after.len() implies target[after[j].power as nat]
                        == after[j].coeff@ by {
                        let i = if j < idx { j } else { j + 1 };
                        lemma_terms_map_entry(before, i);
                    }
                    lemma_terms_map_is(after, target);
                }
            } else {
                proof {
                    assert(!holds_power(before, power as nat));
                    assert(target =~= terms_map(before));
                }
            }
        } else {
            let term = Term { power, coeff: value };
            if found {
                terms.set(idx, term);
                proof {
                    let after = terms@;
                    assert(ascending(after));
                    assert(proper(after));
                    assert forall|k: nat| target.contains_key(k) <==> holds_power(after, k) by {
                        if holds_power(after, k) {
                            let j = index_of(after, k);
                            assert(0 <= j < after.len() && after[j].power as nat == k);
                            assert(before[j].power as nat == k);
                            assert(holds_power(before, k));
                        }
                        if target.contains_key(k) {
                            if k == power as nat {
                                assert(after[idx as int].power as nat == k);
                            } else {
                                let i = index_of(before, k);
                                assert(0 <= i < before.len() && before[i].power as nat == k);
                                assert(after[i].power as nat == k);
                            }
                        }
                    }
                    assert forall|j: int| 0 <= j < after.len() implies target[after[j].power as nat]
                        == after[j].coeff@ by {
                        if j != idx {
                            lemma_terms_map_entry(before, j);
                        }
                    }
                    lemma_terms_map_is(after, target);
                }
            } else {
                terms.insert(idx, term);
                proof {
                    let after = terms@;
                    assert(ascending(after)) by {
                        assert forall|i: int, j: int|
                            0 <= i < j < after.len() implies after[i].power < after[j].power by {
                            let a = if i < idx { i } else { i - 1 };
                            let b = if j < idx { j } else { j - 1 };
                            if i != idx && j != idx {
                                assert(before[a].power < before[b].power);
                            }
                        }
                    }
                    assert(proper(after));
                    assert forall|k: nat| target.contains_key(k) <==> holds_power(after, k) by {
                        if holds_power(after, k) {
                            let j = index_of(after, k);
                            assert(0 <= j < after.len() && after[j].power as nat == k);
                            if j != idx {
                                let i = if j < idx { j } else { j - 1 };
                                assert(before[i].power as nat == k);
                                assert(holds_power(before, k));
                            }
                        }
                        if target.contains_key(k) {
                            if k == power as nat {
                                assert(after[idx as int].power as nat == k);
                            } else {
                                let i = index_of(before, k);
                                assert(0 <= i < before.len() && before[i].power as nat == k);
                                let j = if i < idx { i } else { i + 1 };
                                assert(after[j].power as nat == k);
                            }
                        }
                    }
                    assert forall|j: int| 0 <= j < after.len() implies target[after[j].power as nat]
                        == after[j].coeff@ by {
                        if j != idx {
                            let i = if j < idx { j } else { j - 1 };
                            lemma_terms_map_entry(before, i);
                        }
                    }
                    lemma_terms_map_is(after, target);
                }
            }
        }
        self.terms = terms;
    }

    /// Sets the coefficient of `x^power` to `value`; a zero removes the term.
    /// A negative power is refused, and the polynomial stays as it was.
    pub fn insert(&mut self, power: isize, value: Fixed) -> (r: Result<(), PolynomialError>)
        ensures
            power < 0 ==> r == Err::<(), PolynomialError>(PolynomialError::InvalidPower)
                && final(self)@ == old(self)@,
            power >= 0 ==> r is Ok
                && final(self)@ == set_coeff(old(self)@, power as nat, value@),
    {
        if power < 0 {
            Err(PolynomialError::InvalidPower)
        } else {
            self.put(power as usize, value);
            Ok(())
        }
    }

    /// The largest power with a coefficient other than zero; none for the
    /// zero polynomial.
    pub fn degree(&self) -> (d: Option<usize>)
        ensures
            match d {
                Some(n) => degree(self@) == Some(n as nat),
                None => degree(self@) is None,
            },
    {
        proof {
            use_type_invariant(self);
        }
        proof {
            lemma_terms_map_degree(self.terms@);
        }
        let n: usize = self.terms.len();
        if n == 0 {
            None
        } else {
            Some(self.terms[n - 1].power)
        }
    }

    /// Whether this is the zero polynomial.
    pub fn is_zero(&self) -> (r: bool)
        ensures
            r == (self@ == zero()),
    {
        proof {
            use_type_invariant(self);
        }
        let n: usize = self.terms.len();
        proof {
            if n == 0 {
                assert(self@ =~= zero());
            } else {
                lemma_terms_map_entry(self.terms@, 0);
            }
        }
        n == 0
    }
}

impl Clone for Polynomial {
    /// A copy with the same terms.
    fn clone(&self) -> (r: Polynomial)
        ensures
            r@ == self@,
    {
        proof {
            use_type_invariant(self);
        }
        let n: usize = self.terms.len();
        let mut terms: Vec<crate::polynomial::Term> = Vec::new();
        let mut i: usize = 0;
        while i < n
            invariant
                i <= n,
                n == self.terms@.len(),
                terms@ == self.terms@.subrange(0, i as int),
            decreases n - i,
        {
            terms.push(self.terms[i]);
            proof {
                assert(terms@ =~= self.terms@.subrange(0, i + 1));
            }
            i = i + 1;
        }
        proof {
            assert(terms@ =~= self.terms@);
        }
        Polynomial { terms }
    }
}

} // verus!
