//! The mathematical model of a sparse polynomial.
//!
//! A polynomial is a map from powers to raw coefficients (counts of
//! millionths, see [`crate::fixed`]). A power that the map does not hold has
//! the coefficient zero; a map in normal form holds no zero. The operations
//! of the library are stated as functions on such maps, each in the module of
//! the operation.

use crate::fixed::in_range;
use vstd::prelude::*;

verus! {

/// The coefficient of `x^k` in `m`: zero where `m` holds no entry.
pub open spec fn coeff(m: Map<nat, int>, k: nat) -> int {
    if m.contains_key(k) {
        m[k]
    } else {
        0
    }
}

/// The map in normal form whose coefficients are given by `f`.
pub open spec fn sparse(f: spec_fn(nat) -> int) -> Map<nat, int> {
    Map::new(|k: nat| f(k) != 0, |k: nat| f(k))
}

/// No entry of `m` is zero.
pub open spec fn normal(m: Map<nat, int>) -> bool {
    forall|k: nat| m.contains_key(k) ==> #[trigger] m[k] != 0
}

/// Each coefficient of `m` lies within the range of the numbers.
pub open spec fn bounded(m: Map<nat, int>) -> bool {
    forall|k: nat| in_range(#[trigger] coeff(m, k))
}

/// Every power of `m` lies below `n`.
pub open spec fn below(m: Map<nat, int>, n: nat) -> bool {
    forall|k: nat| m.contains_key(k) ==> k < n
}

/// What holds of the map of every polynomial value: it is in normal form, its
/// coefficients lie within the range, and its powers have a bound.
pub open spec fn canonical(m: Map<nat, int>) -> bool {
    &&& normal(m)
    &&& bounded(m)
    &&& exists|n: nat| below(m, n)
}

/// The zero polynomial.
pub open spec fn zero() -> Map<nat, int> {
    Map::empty()
}

/// The polynomial `c x^p`.
pub open spec fn single(p: nat, c: int) -> Map<nat, int> {
    set_coeff(zero(), p, c)
}

/// `m` with the coefficient of `x^k` set to `c`; a zero is not stored.
pub open spec fn set_coeff(m: Map<nat, int>, k: nat, c: int) -> Map<nat, int> {
    if c == 0 {
        m.remove(k)
    } else {
        m.insert(k, c)
    }
}

/// `d` is the largest power that `m` holds.
pub open spec fn is_degree(m: Map<nat, int>, d: nat) -> bool {
    m.contains_key(d) && forall|k: nat| m.contains_key(k) ==> k <= d
}

/// The largest power that `m` holds, if it holds any.
pub open spec fn degree(m: Map<nat, int>) -> Option<nat> {
    if exists|d: nat| is_degree(m, d) {
        Some(choose|d: nat| is_degree(m, d))
    } else {
        None
    }
}

/// One more than the degree; zero for the zero polynomial.
pub open spec fn rank(m: Map<nat, int>) -> nat {
    match degree(m) {
        Some(d) => d + 1,
        None => 0,
    }
}

/// Two maps in normal form with the same coefficients are the same map.
pub proof fn lemma_equal_by_coeffs(a: Map<nat, int>, b: Map<nat, int>)
    requires
        normal(a),
        normal(b),
        forall|k: nat| coeff(a, k) == coeff(b, k),
    ensures
        a == b,
{
    assert forall|k: nat| a.contains_key(k) == b.contains_key(k) by {
        assert(coeff(a, k) == coeff(b, k));
        if a.contains_key(k) {
            assert(a[k] != 0);
        }
        if b.contains_key(k) {
            assert(b[k] != 0);
        }
    }
    assert forall|k: nat| a.contains_key(k) implies a[k] == b[k] by {
        assert(coeff(a, k) == coeff(b, k));
    }
    assert(a =~= b);
}

/// The degree, told by the largest power.
pub proof fn lemma_degree_is(m: Map<nat, int>, d: nat)
    requires
        is_degree(m, d),
    ensures
        degree(m) == Some(d),
{
    let e = choose|e: nat| is_degree(m, e);
    assert(is_degree(m, e));
    assert(e <= d && d <= e);
}

/// A map without entries has no degree.
pub proof fn lemma_degree_none(m: Map<nat, int>)
    requires
        forall|k: nat| !m.contains_key(k),
    ensures
        degree(m) is None,
{
}

/// The degree is a power of the polynomial, and its largest.
pub proof fn lemma_degree_some(m: Map<nat, int>)
    requires
        degree(m) is Some,
    ensures
        is_degree(m, degree(m)->0),
        rank(m) == degree(m)->0 + 1,
{
    let e = choose|e: nat| is_degree(m, e);
    assert(is_degree(m, e));
}

/// A polynomial whose powers all lie below `bound` has at most that rank.
pub proof fn lemma_rank_bound(m: Map<nat, int>, bound: nat)
    requires
        forall|k: nat| m.contains_key(k) ==> k < bound,
    ensures
        rank(m) <= bound,
{
    if degree(m) is Some {
        let e = choose|e: nat| is_degree(m, e);
        assert(is_degree(m, e));
    }
}

/// A polynomial whose powers have a bound is zero or has a degree.
pub proof fn lemma_below_degree(m: Map<nat, int>, n: nat)
    requires
        below(m, n),
    ensures
        m == zero() || degree(m) is Some,
        degree(m) is Some ==> is_degree(m, degree(m)->0) && degree(m)->0 < n,
    decreases n,
{
    if n == 0 {
        assert(m =~= zero());
    } else if m.contains_key((n - 1) as nat) {
        assert(is_degree(m, (n - 1) as nat));
        lemma_degree_is(m, (n - 1) as nat);
    } else {
        assert(below(m, (n - 1) as nat)) by {
            assert forall|k: nat| m.contains_key(k) implies k < n - 1 by {
                assert(k < n);
            }
        }
        lemma_below_degree(m, (n - 1) as nat);
    }
    if degree(m) is Some {
        lemma_degree_some(m);
    }
}

/// A canonical polynomial is zero or has a degree.
pub proof fn lemma_canonical_degree(m: Map<nat, int>)
    requires
        canonical(m),
    ensures
        m == zero() || degree(m) is Some,
{
    let n = choose|n: nat| below(m, n);
    lemma_below_degree(m, n);
}

} // verus!
