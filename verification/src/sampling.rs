//! Curves for plotting: evenly spaced sample points over an interval and the
//! values of polynomials at them.

use crate::error::PolynomialError;
use crate::fixed::{fixed_mul, sat_add, sat_sub, Fixed, SCALE};
use crate::evaluation::value;
use crate::polynomial::Polynomial;
use crate::render::{digits, number_text, polynomial_text};
use vstd::prelude::*;
use vstd::string::StringExecFns;

verus! {

/// The `i`-th of `count` evenly spaced points from `left` to `right`, both
/// ends included: `left + (right - left) * (i / (count - 1))`, computed in
/// fixed point.
pub open spec fn sample_point(left: int, right: int, i: nat, count: nat) -> int {
    sat_add(left, fixed_mul(sat_sub(right, left), (i * SCALE) / (count - 1)))
}

/// The title of a plot over `[left, right]` with `count` sample points.
pub open spec fn title_text(left: int, right: int, count: nat) -> Seq<char> {
    "plotted from "@ + number_text(left) + " to "@ + number_text(right) + " with "@ + digits(count)
        + " samples"@
}

/// One polynomial drawn: its text as the caption, and its sampled points,
/// each an `x` and the value there.
pub struct Curve {
    pub caption: String,
    pub points: Vec<(Fixed, Fixed)>,
}

/// What a plot shows and where it goes: the name of the file to write, a
/// title, and one curve for each polynomial.
pub struct Plot {
    pub file: String,
    pub title: String,
    pub curves: Vec<Curve>,
}

/// `curve` is the polynomial `m` sampled at `count` points over `[left, right]`.
pub open spec fn is_curve_of(
    curve: Curve,
    m: Map<nat, int>,
    left: int,
    right: int,
    count: nat,
) -> bool {
    &&& curve.caption@ == polynomial_text(m)
    &&& curve.points@.len() == count
    &&& forall|i: int|
        0 <= i < count ==> (#[trigger] curve.points@[i]).0@ == sample_point(
            left,
            right,
            i as nat,
            count,
        ) && curve.points@[i].1@ == value(m, curve.points@[i].0@)
}

/// The `count` evenly spaced points from `left` to `right`, ends included.
/// Fewer than two points are refused.
pub fn sample_points(left: Fixed, right: Fixed, count: usize) -> (r: Result<
    Vec<Fixed>,
    PolynomialError,
>)
    ensures
        count < 2 ==> r is Err && r->Err_0 == PolynomialError::InsufficientSamples,
        count >= 2 ==> r is Ok && r->Ok_0@.len() == count && forall|i: int|
            0 <= i < count ==> (#[trigger] r->Ok_0@[i])@ == sample_point(
                left@,
                right@,
                i as nat,
                count as nat,
            ),
{
    if count < 2 {
        return Err(PolynomialError::InsufficientSamples);
    }
    let span: Fixed = right.sub(left);
    let mut points: Vec<Fixed> = Vec::new();
    let mut i: usize = 0;
    while i < count
        invariant
            i <= count,
            count >= 2,
            span@ == sat_sub(right@, left@),
            points@.len() == i,
            forall|j: int|
                0 <= j < i ==> (#[trigger] points@[j])@ == sample_point(
                    left@,
                    right@,
                    j as nat,
                    count as nat,
                ),
        decreases count - i,
    {
        let share: Fixed = Fixed::ratio(i, count - 1);
        points.push(left.add(span.mul(share)));
        i = i + 1;
    }
    Ok(points)
}

impl Polynomial {
    /// The curve of this polynomial over the given points.
    fn curve_over(&self, xs: &Vec<Fixed>) -> (curve: Curve)
        ensures
            curve.caption@ == polynomial_text(self@),
            curve.points@.len() == xs@.len(),
            forall|i: int|
                0 <= i < xs@.len() ==> (#[trigger] curve.points@[i]).0 == xs@[i]
                    && curve.points@[i].1@ == value(self@, xs@[i]@),
    {
        let mut points: Vec<(Fixed, Fixed)> = Vec::new();
        let n: usize = xs.len();
        let mut i: usize = 0;
        while i < n
            invariant
                i <= n,
                n == xs@.len(),
                points@.len() == i,
                forall|j: int|
                    0 <= j < i ==> (#[trigger] points@[j]).0 == xs@[j] && points@[j].1@ == value(
                        self@,
                        xs@[j]@,
                    ),
            decreases n - i,
        {
            let x: Fixed = xs[i];
            points.push((x, self.at(x)));
            i = i + 1;
        }
        Curve { caption: self.render(), points }
    }

    /// The data of a plot of `polys` over `[left, right]`: the file that
    /// `filename` names, a title, and for each polynomial its caption and
    /// `num_samples` evenly spaced points with the values there. Fewer than
    /// two samples are refused.
    pub fn plot(
        polys: &[&Polynomial],
        left: Fixed,
        right: Fixed,
        num_samples: usize,
        filename: &str,
    ) -> (r: Result<Plot, PolynomialError>)
        ensures
            num_samples < 2 ==> r is Err && r->Err_0 == PolynomialError::InsufficientSamples,
            num_samples >= 2 ==> r is Ok && r->Ok_0.file@ == filename@ + ".gnuplot"@
                && r->Ok_0.title@ == title_text(left@, right@, num_samples as nat)
                && r->Ok_0.curves@.len() == polys@.len() && forall|j: int|
                0 <= j < polys@.len() ==> is_curve_of(
                    #[trigger] r->Ok_0.curves@[j],
                    polys@[j]@,
                    left@,
                    right@,
                    num_samples as nat,
                ),
    {
        let xs: Vec<Fixed> = match sample_points(left, right, num_samples) {
            Ok(xs) => xs,
            Err(e) => {
                return Err(e);
            },
        };
        let mut curves: Vec<Curve> = Vec::new();
        let n: usize = polys.len();
        let mut j: usize = 0;
        while j < n
            invariant
                j <= n,
                n == polys@.len(),
                num_samples >= 2,
                xs@.len() == num_samples,
                forall|i: int|
                    0 <= i < num_samples ==> (#[trigger] xs@[i])@ == sample_point(
                        left@,
                        right@,
                        i as nat,
                        num_samples as nat,
                    ),
                curves@.len() == j,
                forall|k: int|
                    0 <= k < j ==> is_curve_of(
                        #[trigger] curves@[k],
                        polys@[k]@,
                        left@,
                        right@,
                        num_samples as nat,
                    ),
            decreases n - j,
        {
            let curve = polys[j].curve_over(&xs);
            proof {
                let m = polys@[j as int]@;
                assert forall|i: int| 0 <= i < num_samples implies (#[trigger] curve.points@[i]).0@
                    == sample_point(left@, right@, i as nat, num_samples as nat)
                    && curve.points@[i].1@ == value(m, curve.points@[i].0@) by {
                    assert(curve.points@[i].0 == xs@[i]);
                }
            }
            curves.push(curve);
            j = j + 1;
        }
        let mut title = String::new();
        title.append("plotted from ");
        left.write_to(&mut title);
        title.append(" to ");
        right.write_to(&mut title);
        title.append(" with ");
        crate::render::push_digits(&mut title, num_samples as u64);
        title.append(" samples");
        proof {
            assert(title@ =~= title_text(left@, right@, num_samples as nat));
        }
        let mut file = String::from_str(filename);
        file.append(".gnuplot");
        Ok(Plot { file, title, curves })
    }
}

} // verus!
