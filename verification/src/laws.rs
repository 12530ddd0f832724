//! What holds of the operations together, proved over the model.

use crate::arith::{
    lemma_product_below_bounded, product, product_below, sum, term_product,
};
use crate::calculus::{derivative, integral, lemma_reflection_keeps_powers, reflection};
use crate::division::{quotient, remainder};
use crate::evaluation::{value, value_below};
use crate::fixed::{
    fixed_mul, fixed_pow, in_range, lemma_fixed_mul_negated, lemma_fixed_pow_negated,
    lemma_trunc_div_exact, lemma_trunc_div_multiple, sat_sub, sign_change, Fixed, LIMIT,
};
use crate::model::{
    below, bounded, canonical, coeff, degree, is_degree, lemma_canonical_degree, lemma_degree_is,
    lemma_degree_none, lemma_degree_some, lemma_equal_by_coeffs, normal, set_coeff, zero,
};
use crate::polynomial::{
    built, index_of, lemma_terms_map_coeff, lemma_terms_map_normal, Polynomial,
};
use crate::roots::sweep;
use crate::sampling::sample_point;
use vstd::prelude::*;

verus! {

/// The map of every polynomial value is canonical.
pub proof fn polynomial_is_canonical(p: Polynomial)
    requires
        p.wf(),
    ensures
        canonical(p@),
{
    lemma_terms_map_normal(p.terms@);
    assert forall|k: nat| in_range(#[trigger] coeff(p@, k)) by {
        lemma_terms_map_coeff(p.terms@, k);
    }
    let n: nat = if p.terms@.len() == 0 {
        0
    } else {
        (p.terms@.last().power + 1) as nat
    };
    assert(below(p@, n)) by {
        assert forall|k: nat| p@.contains_key(k) implies k < n by {
            let j = index_of(p.terms@, k);
            assert(0 <= j < p.terms@.len() && p.terms@[j].power as nat == k);
            if j < p.terms@.len() - 1 {
                assert(p.terms@[j].power < p.terms@[p.terms@.len() - 1].power);
            }
        }
    }
}

/// A polynomial built from two terms with different powers, neither
/// coefficient zero, has the larger of the two powers as its degree.
pub proof fn degree_of_two_terms(k1: isize, c1: Fixed, k2: isize, c2: Fixed)
    requires
        k1 >= 0,
        k2 >= 0,
        k1 != k2,
        c1@ != 0,
        c2@ != 0,
    ensures
        degree(built(seq![(k1, c1), (k2, c2)])) == Some(
            if k1 > k2 {
                k1 as nat
            } else {
                k2 as nat
            },
        ),
{
    let both = seq![(k1, c1), (k2, c2)];
    let first = seq![(k1, c1)];
    assert(both.drop_last() =~= first);
    assert(first.drop_last() =~= Seq::<(isize, Fixed)>::empty());
    assert(built(first.drop_last()) == zero());
    assert(built(first) == set_coeff(zero(), k1 as nat, c1@));
    let m = built(both);
    assert(m == set_coeff(built(first), k2 as nat, c2@));
    let top = if k1 > k2 {
        k1 as nat
    } else {
        k2 as nat
    };
    assert(is_degree(m, top));
    lemma_degree_is(m, top);
}

/// Setting a coefficient of the zero polynomial to zero leaves the zero
/// polynomial, whatever the power.
pub proof fn zero_coefficient_leaves_zero(k: nat)
    ensures
        set_coeff(zero(), k, 0) == zero(),
{
    assert(set_coeff(zero(), k, 0) =~= zero());
}

/// A polynomial built from coefficients that are all zero is the zero
/// polynomial, whatever the powers.
pub proof fn zero_coefficients_build_zero(pairs: Seq<(isize, Fixed)>)
    requires
        forall|i: int| 0 <= i < pairs.len() ==> pairs[i].1@ == 0,
    ensures
        built(pairs) == zero(),
    decreases pairs.len(),
{
    if pairs.len() > 0 {
        zero_coefficients_build_zero(pairs.drop_last());
        assert(pairs.last().1@ == 0);
        assert(built(pairs) =~= zero());
    }
}

/// The derivative of the integral is the polynomial again, where each
/// coefficient is a multiple of its power plus one, so that no quotient is
/// rounded.
pub proof fn derivative_undoes_integral(p: Map<nat, int>, c: int)
    requires
        canonical(p),
        forall|k: nat| p.contains_key(k) ==> #[trigger] p[k] % (k + 1) as int == 0,
    ensures
        derivative(integral(p, c)) == p,
{
    let back = derivative(integral(p, c));
    assert forall|k: nat| coeff(back, k) == coeff(p, k) by {
        assert(in_range(coeff(p, k)));
        if p.contains_key(k) {
            assert(p[k] % (k + 1) as int == 0);
            lemma_trunc_div_exact(p[k], (k + 1) as int);
        } else {
            assert(0int / ((k + 1) as int) == 0);
            assert(0 * (k + 1) == 0);
        }
    }
    lemma_equal_by_coeffs(back, p);
}

/// The value at zero is the constant term.
pub proof fn value_at_zero(p: Map<nat, int>)
    requires
        canonical(p),
    ensures
        value(p, 0) == coeff(p, 0),
{
    lemma_canonical_degree(p);
    if degree(p) is Some {
        lemma_value_below_at_zero(p, degree(p)->0 + 1);
    }
}

/// The partial values at zero: the constant term, once it is counted.
proof fn lemma_value_below_at_zero(p: Map<nat, int>, n: nat)
    requires
        bounded(p),
    ensures
        value_below(p, 0, n) == (if n == 0 {
            0
        } else {
            coeff(p, 0)
        }),
    decreases n,
{
    reveal_with_fuel(crate::fixed::fixed_pow, 2);
    if n > 0 {
        lemma_value_below_at_zero(p, (n - 1) as nat);
        let k = (n - 1) as nat;
        let c = coeff(p, k);
        assert(in_range(c));
        assert(in_range(coeff(p, 0)));
        if k == 0 {
            lemma_trunc_div_multiple(c, 1_000_000);
        } else {
            let lower = crate::fixed::fixed_pow(0, (k - 1) as nat);
            assert(lower * 0 == 0) by (nonlinear_arith);
            assert(crate::fixed::fixed_pow(0, k) == 0);
            assert(c * 0 == 0) by (nonlinear_arith);
        }
    }
}

/// The integral of the derivative, with the value at zero as its constant
/// term, is the polynomial again, where no coefficient times its power leaves
/// the number range.
pub proof fn integral_undoes_derivative(p: Map<nat, int>)
    requires
        canonical(p),
        forall|k: nat| p.contains_key(k) ==> in_range(#[trigger] p[k] * k),
    ensures
        integral(derivative(p), value(p, 0)) == p,
{
    value_at_zero(p);
    let back = integral(derivative(p), value(p, 0));
    assert forall|k: nat| coeff(back, k) == coeff(p, k) by {
        if k > 0 {
            if p.contains_key(k) {
                assert(in_range(p[k] * k));
                lemma_trunc_div_multiple(p[k], k as int);
            } else {
                assert(0 * k == 0);
                assert(0int / (k as int) == 0);
            }
        }
    }
    lemma_equal_by_coeffs(back, p);
}

/// The sum does not depend on the order of its operands.
pub proof fn sum_is_commutative(a: Map<nat, int>, b: Map<nat, int>)
    ensures
        sum(a, b) == sum(b, a),
{
    assert(sum(a, b) =~= sum(b, a));
}

/// Where the dividend is zero or of lower degree than the divisor, the
/// quotient is the zero polynomial and the remainder is the dividend.
pub proof fn quotient_of_lower_degree(a: Map<nat, int>, b: Map<nat, int>)
    requires
        canonical(a),
        degree(b) is Some,
        degree(a) is None || degree(a)->0 < degree(b)->0,
    ensures
        quotient(a, b) == zero(),
        remainder(a, b) == a,
{
    product_with_zero(b);
    assert forall|k: nat| coeff(remainder(a, b), k) == coeff(a, k) by {
        assert(in_range(coeff(a, k)));
    }
    lemma_equal_by_coeffs(remainder(a, b), a);
}

/// Quotient times divisor plus remainder is the dividend, where the
/// subtraction that gives the remainder stays within the number range at
/// every power.
pub proof fn division_identity(a: Map<nat, int>, b: Map<nat, int>)
    requires
        canonical(a),
        canonical(b),
        b != zero(),
        forall|k: nat| in_range(#[trigger] coeff(a, k) - coeff(product(quotient(a, b), b), k)),
    ensures
        sum(product(quotient(a, b), b), remainder(a, b)) == a,
{
    let back = product(quotient(a, b), b);
    product_is_bounded(quotient(a, b), b);
    let total = sum(back, remainder(a, b));
    assert forall|k: nat| coeff(total, k) == coeff(a, k) by {
        assert(in_range(coeff(a, k)));
        assert(in_range(coeff(back, k)));
        assert(in_range(coeff(a, k) - coeff(back, k)));
    }
    lemma_equal_by_coeffs(total, a);
}

/// A product is in normal form and its coefficients lie within the range.
pub proof fn product_is_bounded(a: Map<nat, int>, b: Map<nat, int>)
    ensures
        normal(product(a, b)),
        bounded(product(a, b)),
{
    if degree(a) is Some {
        lemma_product_below_bounded(a, b, degree(a)->0 + 1);
    }
}

/// The product with the zero polynomial, on either side, is the zero
/// polynomial.
pub proof fn product_with_zero(a: Map<nat, int>)
    ensures
        product(zero(), a) == zero(),
        product(a, zero()) == zero(),
{
    lemma_degree_none(zero());
    if degree(a) is Some {
        lemma_product_below_zero(a, degree(a)->0 + 1);
    }
}

/// The partial products with the zero polynomial are zero.
proof fn lemma_product_below_zero(a: Map<nat, int>, n: nat)
    ensures
        product_below(a, zero(), n) == zero(),
    decreases n,
{
    if n > 0 {
        lemma_product_below_zero(a, (n - 1) as nat);
        let t = term_product((n - 1) as nat, coeff(a, (n - 1) as nat), zero());
        assert forall|k: nat| coeff(t, k) == 0 by {
            assert(coeff(a, (n - 1) as nat) * 0 == 0) by (nonlinear_arith);
        }
        assert(t =~= zero());
        assert(sum(zero(), zero()) =~= zero());
    }
}

/// The partial products above their highest possible power, and at it.
proof fn lemma_product_below_top(a: Map<nat, int>, b: Map<nat, int>, n: nat, high: nat, k: nat)
    requires
        below(b, high + 1),
    ensures
        k + 1 > n + high ==> coeff(product_below(a, b, n), k) == 0,
        n > 0 && k + 1 == n + high ==> coeff(product_below(a, b, n), k) == fixed_mul(
            coeff(a, (n - 1) as nat),
            coeff(b, high),
        ),
    decreases n,
{
    if n > 0 {
        let last = (n - 1) as nat;
        lemma_product_below_top(a, b, last, high, k);
        if k + 1 > n + high {
            assert(!b.contains_key((k - last) as nat));
            assert(coeff(a, last) * 0 == 0) by (nonlinear_arith);
        }
    }
}

/// The degree of a product is the sum of the degrees, where the product of
/// the two leading coefficients does not round to zero.
pub proof fn product_degree(a: Map<nat, int>, b: Map<nat, int>)
    requires
        degree(a) is Some,
        degree(b) is Some,
        fixed_mul(coeff(a, degree(a)->0), coeff(b, degree(b)->0)) != 0,
    ensures
        degree(product(a, b)) == Some(degree(a)->0 + degree(b)->0),
{
    lemma_degree_some(a);
    lemma_degree_some(b);
    let da = degree(a)->0;
    let db = degree(b)->0;
    let whole = product(a, b);
    lemma_product_below_top(a, b, da + 1, db, da + db);
    assert(whole.contains_key(da + db));
    assert forall|k: nat| whole.contains_key(k) implies k <= da + db by {
        lemma_product_below_top(a, b, da + 1, db, k);
    }
    assert(is_degree(whole, da + db));
    lemma_degree_is(whole, da + db);
}

/// The derivative of a constant, and of the zero polynomial, is the zero
/// polynomial.
pub proof fn derivative_of_constant(a: Map<nat, int>)
    requires
        below(a, 1),
    ensures
        derivative(a) == zero(),
{
    assert forall|k: nat| coeff(derivative(a), k) == 0 by {
        assert(!a.contains_key(k + 1));
        assert(0 * (k + 1) == 0);
    }
    assert(derivative(a) =~= zero());
}

/// The partial values of the reflection at `x` are those of the polynomial
/// at `-x`.
proof fn lemma_reflection_value_below(a: Map<nat, int>, x: int, n: nat)
    ensures
        value_below(reflection(a), x, n) == value_below(a, -x, n),
    decreases n,
{
    if n > 0 {
        let k = (n - 1) as nat;
        lemma_reflection_value_below(a, x, k);
        lemma_fixed_pow_negated(x, k);
        lemma_fixed_mul_negated(coeff(a, k), fixed_pow(x, k));
    }
}

/// The value of the reflection at a point is the value of the polynomial at
/// the negated point.
pub proof fn reflection_mirrors_value(a: Map<nat, int>, x: int)
    requires
        normal(a),
    ensures
        value(reflection(a), x) == value(a, -x),
{
    let mirror = reflection(a);
    lemma_reflection_keeps_powers(a);
    if degree(a) is Some {
        lemma_degree_some(a);
        let d = degree(a)->0;
        assert(mirror.contains_key(d));
        assert(is_degree(mirror, d));
        lemma_degree_is(mirror, d);
        lemma_reflection_value_below(a, x, d + 1);
    } else if degree(mirror) is Some {
        lemma_degree_some(mirror);
        let d = degree(mirror)->0;
        assert(a.contains_key(d));
        assert forall|k: nat| a.contains_key(k) implies k <= d by {
            assert(mirror.contains_key(k));
        }
        assert(is_degree(a, d));
        lemma_degree_is(a, d);
    }
}

/// Reflecting twice gives the polynomial again.
pub proof fn reflection_twice(a: Map<nat, int>)
    requires
        normal(a),
    ensures
        reflection(reflection(a)) == a,
{
    let back = reflection(reflection(a));
    assert forall|k: nat| coeff(back, k) == coeff(a, k) by {}
    lemma_equal_by_coeffs(back, a);
}

/// The first sample point is the left end of the interval, and the last is
/// the right end, where the length of the interval lies within the range.
pub proof fn sample_points_reach_both_ends(left: int, right: int, count: nat)
    requires
        in_range(left),
        in_range(right),
        count >= 2,
    ensures
        sample_point(left, right, 0, count) == left,
        in_range(right - left) ==> sample_point(left, right, (count - 1) as nat, count) == right,
{
    let span = sat_sub(right, left);
    let last = (count - 1) as int;
    assert((0int * 1_000_000int) / last == 0) by (nonlinear_arith)
        requires
            last > 0,
    ;
    assert(span * 0 == 0) by (nonlinear_arith);
    assert((last * 1_000_000int) / last == 1_000_000) by (nonlinear_arith)
        requires
            last > 0,
    ;
    lemma_trunc_div_multiple(span, 1_000_000);
}

/// Each point that the sweep reports lies a whole number of steps after its
/// start, within the number range, and the polynomial changes its sign
/// between the point one step before and it.
pub proof fn sweep_reports_sign_changes(a: Map<nat, int>, x: int, dx: int, i: int)
    requires
        dx > 0,
        x <= LIMIT,
        0 <= i < sweep(a, x, dx).len(),
    ensures
        x < sweep(a, x, dx)[i] <= LIMIT,
        (sweep(a, x, dx)[i] - x) % dx == 0,
        sign_change(value(a, sweep(a, x, dx)[i]), value(a, sweep(a, x, dx)[i] - dx)),
    decreases LIMIT - x,
{
    let next = x + dx;
    let found = if sign_change(value(a, next), value(a, x)) {
        seq![next]
    } else {
        Seq::<int>::empty()
    };
    assert(sweep(a, x, dx) == found + sweep(a, next, dx));
    if i < found.len() {
        vstd::arithmetic::div_mod::lemma_mod_self_0(dx);
    } else {
        let j = i - found.len();
        sweep_reports_sign_changes(a, next, dx, j);
        let r = sweep(a, next, dx)[j];
        assert(sweep(a, x, dx)[i] == r);
        vstd::arithmetic::div_mod::lemma_mod_adds(dx, r - next, dx);
    }
}

/// Each point that the sweep over the reflection reports stands for a
/// negative point: between it, negated, and the point one step nearer to
/// zero the polynomial itself changes its sign.
pub proof fn mirrored_sweep_reports_sign_changes(a: Map<nat, int>, dx: int, i: int)
    requires
        normal(a),
        0 < dx <= LIMIT,
        0 <= i < sweep(reflection(a), dx, dx).len(),
    ensures
        sign_change(
            value(a, -sweep(reflection(a), dx, dx)[i]),
            value(a, -(sweep(reflection(a), dx, dx)[i] - dx)),
        ),
{
    let r = sweep(reflection(a), dx, dx)[i];
    sweep_reports_sign_changes(reflection(a), dx, dx, i);
    reflection_mirrors_value(a, r);
    reflection_mirrors_value(a, r - dx);
}

} // verus!
