//! What holds of every curve: where it starts and ends, and how its tangent
//! relates to its position.
//!
//! Arithmetic on scalars is exact or undefined, so each statement is made of the
//! components in which the values concerned are defined.
use vstd::prelude::*;
use crate::bezier::{
    lemma_cubic_coefficients, lemma_cubic_coefficients_on_lattice, on_lattice, BezierCurve,
    GenericBezierCurve,
};
use crate::calculus::{derivative_real, lemma_derivative, lemma_value_at_zero, polynomial_rest};
use crate::maths::{
    column, derivative_of, lemma_cubic_value, lemma_polynomial_defined, lemma_polynomial_length,
    lemma_polynomial_step, lemma_quadratic_value, polynomial_real, polynomial_value, values_of,
};
use crate::scalar::{lemma_product_of_integers, lemma_sum_of_integers, power_of};

verus! {

/// Endpoint interpolation: a cubic curve starts at its first control point and
/// ends at its last. In every component in which the position at parameter 0 is
/// defined it is that of the first control point, and in every component in which
/// the position at parameter 1 is defined it is that of the fourth.
pub proof fn lemma_endpoint_interpolation<const DIM: usize>(curve: GenericBezierCurve<DIM>, k: int)
    requires
        curve.well_formed(),
        curve.points.len() == 4,
        0 <= k < DIM,
    ensures
        curve.point_at(Some(0 as real)) is Some,
        curve.point_at(Some(1 as real)) is Some,
        curve.point_at(Some(0 as real)).unwrap()[k] is Some ==> curve.point_at(
            Some(0 as real),
        ).unwrap()[k] == curve.points[0]@[k],
        curve.point_at(Some(1 as real)).unwrap()[k] is Some ==> curve.point_at(
            Some(1 as real),
        ).unwrap()[k] == curve.points[3]@[k],
{
    let points = values_of(curve.points@);
    let coefficients = values_of(curve.coefficients@);
    assert(coefficients.len() == 4);
    lemma_cubic_coefficients(points, DIM as nat, k);
    let c = column(coefficients, k);
    if curve.point_at(Some(0 as real)).unwrap()[k] is Some {
        lemma_polynomial_defined(coefficients, Some(0 as real), 4, DIM as nat, k);
        lemma_cubic_value(c, 0 as real);
        let z = 0 as real;
        assert(c[0] + z * c[1] + z * z * c[2] + z * z * z * c[3] == c[0]) by (nonlinear_arith)
            requires
                z == 0 as real,
        ;
    }
    if curve.point_at(Some(1 as real)).unwrap()[k] is Some {
        lemma_polynomial_defined(coefficients, Some(1 as real), 4, DIM as nat, k);
        lemma_cubic_value(c, 1 as real);
        let u = 1 as real;
        assert(c[0] + u * c[1] + u * u * c[2] + u * u * u * c[3] == c[0] + c[1] + c[2] + c[3])
            by (nonlinear_arith)
            requires
                u == 1 as real,
        ;
    }
}

/// The value of a cubic with integer coefficients at the parameter 0 or 1, in one
/// component: every step is defined, and the value is the constant coefficient at
/// 0 and the sum of the coefficients at 1.
proof fn lemma_cubic_at_end(
    coefficients: Seq<Seq<Option<real>>>,
    dim: nat,
    k: int,
    t: int,
    c0: int,
    c1: int,
    c2: int,
    c3: int,
)
    requires
        coefficients.len() == 4,
        0 <= k < dim,
        forall|i: int| 0 <= i < 4 ==> (#[trigger] coefficients[i]).len() == dim,
        t == 0 || t == 1,
        coefficients[0][k] == Some(c0 as real),
        coefficients[1][k] == Some(c1 as real),
        coefficients[2][k] == Some(c2 as real),
        coefficients[3][k] == Some(c3 as real),
        -0x1000_0000_0000_0000 <= c0 <= 0x1000_0000_0000_0000,
        -0x1000_0000_0000_0000 <= c1 <= 0x1000_0000_0000_0000,
        -0x1000_0000_0000_0000 <= c2 <= 0x1000_0000_0000_0000,
        -0x1000_0000_0000_0000 <= c3 <= 0x1000_0000_0000_0000,
    ensures
        polynomial_value(coefficients, Some(t as real), 4, dim)[k] == Some(
            (c0 + t * c1 + t * c2 + t * c3) as real,
        ),
{
    let x = Some(t as real);
    lemma_polynomial_length(coefficients, x, 0, dim);
    lemma_polynomial_step(coefficients, x, 1, dim, k);
    lemma_polynomial_step(coefficients, x, 2, dim, k);
    lemma_polynomial_step(coefficients, x, 3, dim, k);
    lemma_polynomial_step(coefficients, x, 4, dim, k);
    // the powers of t
    assert(power_of(x, 0) == Some(1 as real));
    lemma_product_of_integers(1, t);
    assert(power_of(x, 1) == Some(t as real));
    lemma_product_of_integers(t, t);
    assert(t * t == t) by (nonlinear_arith)
        requires
            t == 0 || t == 1,
    ;
    assert(power_of(x, 2) == Some(t as real));
    assert(power_of(x, 3) == Some(t as real));
    // the terms
    assert(t * c1 == if t == 0 { 0 } else { c1 }) by (nonlinear_arith)
        requires
            t == 0 || t == 1,
    ;
    assert(t * c2 == if t == 0 { 0 } else { c2 }) by (nonlinear_arith)
        requires
            t == 0 || t == 1,
    ;
    assert(t * c3 == if t == 0 { 0 } else { c3 }) by (nonlinear_arith)
        requires
            t == 0 || t == 1,
    ;
    lemma_product_of_integers(1, c0);
    lemma_product_of_integers(t, c1);
    lemma_product_of_integers(t, c2);
    lemma_product_of_integers(t, c3);
    // the sums
    lemma_sum_of_integers(0, 1 * c0);
    lemma_sum_of_integers(c0, t * c1);
    lemma_sum_of_integers(c0 + t * c1, t * c2);
    lemma_sum_of_integers(c0 + t * c1 + t * c2, t * c3);
}

/// Endpoint interpolation on the lattice: a cubic curve whose control values in a
/// component are integers of magnitude up to `LATTICE_BOUND` has, in that
/// component, a defined position at the parameters 0 and 1: that of its first
/// control point and that of its last.
pub proof fn lemma_endpoint_interpolation_on_lattice<const DIM: usize>(
    curve: GenericBezierCurve<DIM>,
    k: int,
    p0: int,
    p1: int,
    p2: int,
    p3: int,
)
    requires
        curve.well_formed(),
        curve.points.len() == 4,
        0 <= k < DIM,
        on_lattice(curve.points[0]@[k], p0),
        on_lattice(curve.points[1]@[k], p1),
        on_lattice(curve.points[2]@[k], p2),
        on_lattice(curve.points[3]@[k], p3),
    ensures
        curve.point_at(Some(0 as real)).unwrap()[k] == curve.points[0]@[k],
        curve.point_at(Some(1 as real)).unwrap()[k] == curve.points[3]@[k],
{
    let points = values_of(curve.points@);
    let coefficients = values_of(curve.coefficients@);
    assert(coefficients.len() == 4);
    lemma_cubic_coefficients_on_lattice(points, DIM as nat, k, p0, p1, p2, p3);
    let c0 = p0;
    let c1 = 3 * (p1 - p0);
    let c2 = 3 * p0 - 6 * p1 + 3 * p2;
    let c3 = -p0 + 3 * p1 - 3 * p2 + p3;
    lemma_cubic_at_end(coefficients, DIM as nat, k, 0, c0, c1, c2, c3);
    lemma_cubic_at_end(coefficients, DIM as nat, k, 1, c0, c1, c2, c3);
}

/// A product with a sum of three terms, multiplied out.
proof fn lemma_distribute(h: real, a: real, b: real, c: real)
    ensures
        h * (a + b + c) == h * a + h * b + h * c,
        h * (a + b) == h * a + h * b,
        (a + b) * c == a * c + b * c,
        (a - b) * c == a * c - b * c,
{
    assert(h * (a + b + c) == h * a + h * b + h * c) by (nonlinear_arith);
    assert(h * (a + b) == h * a + h * b) by (nonlinear_arith);
    assert((a + b) * c == a * c + b * c) by (nonlinear_arith);
    assert((a - b) * c == a * c - b * c) by (nonlinear_arith);
}

/// Products of three real numbers, regrouped.
proof fn lemma_regroup(a: real, b: real, c: real)
    ensures
        (a * b) * c == a * (b * c),
        (a * b) * c == b * (a * c),
{
    assert((a * b) * c == a * (b * c)) by (nonlinear_arith);
    assert((a * b) * c == b * (a * c)) by (nonlinear_arith);
}

/// How the first three powers of `x + h` differ from those of `x`.
proof fn lemma_power_increments(x: real, h: real)
    ensures
        (x + h) - x == h,
        (x + h) * (x + h) - x * x == h * ((2 as real) * x) + h * h,
        (x + h) * (x + h) * (x + h) - x * x * x == h * ((3 as real) * (x * x)) + h * h * ((
        3 as real) * x + h),
{
    assert((x + h) * (x + h) - x * x == h * ((2 as real) * x) + h * h) by (nonlinear_arith);
    assert((x + h) * (x + h) * (x + h) - x * x * x == h * ((3 as real) * (x * x)) + h * h * ((
    3 as real) * x + h)) by (nonlinear_arith);
}

/// The increment of a real cubic: from `x` to `x + h` its value changes by `h`
/// times its derivative at `x` and a rest of second order in `h`.
pub proof fn lemma_cubic_increment(c1: real, c2: real, c3: real, x: real, h: real)
    ensures
        ((x + h) * c1 + (x + h) * (x + h) * c2 + (x + h) * (x + h) * (x + h) * c3) - (x * c1 + x * x
            * c2 + x * x * x * c3) == h * (c1 + x * ((2 as real) * c2) + x * x * ((3 as real) * c3))
            + h * h * (c2 + ((3 as real) * x + h) * c3),
{
    let hh = h * h;
    let u1 = x + h;
    let u2 = (x + h) * (x + h);
    let u3 = (x + h) * (x + h) * (x + h);
    let v2 = x * x;
    let v3 = x * x * x;
    let a2 = (2 as real) * x;
    let a3 = (3 as real) * (x * x);
    let b3 = (3 as real) * x + h;
    lemma_power_increments(x, h);
    // each power times its coefficient
    lemma_distribute(0 as real, u1, x, c1);
    lemma_distribute(0 as real, u2, v2, c2);
    lemma_distribute(0 as real, u3, v3, c3);
    let e1 = u1 * c1 - x * c1;
    let e2 = u2 * c2 - v2 * c2;
    let e3 = u3 * c3 - v3 * c3;
    assert(e1 == h * c1);
    assert(e2 == (h * a2 + hh) * c2);
    assert(e3 == (h * a3 + hh * b3) * c3);
    lemma_distribute(0 as real, h * a2, hh, c2);
    lemma_distribute(0 as real, h * a3, hh * b3, c3);
    lemma_regroup(h, a2, c2);
    lemma_regroup(h, a3, c3);
    lemma_regroup(hh, b3, c3);
    assert(e2 == h * (a2 * c2) + hh * c2);
    assert(e3 == h * (a3 * c3) + hh * (b3 * c3));
    // the derivative, term by term
    lemma_regroup((2 as real), x, c2);
    assert(a2 * c2 == x * ((2 as real) * c2));
    lemma_regroup((3 as real), x * x, c3);
    assert(a3 * c3 == x * x * ((3 as real) * c3));
    lemma_distribute(h, c1, x * ((2 as real) * c2), x * x * ((3 as real) * c3));
    lemma_distribute(hh, c2, b3 * c3, 0 as real);
    assert(e1 + e2 + e3 == h * (c1 + x * ((2 as real) * c2) + x * x * ((3 as real) * c3)) + hh * (
    c2 + b3 * c3));
}

/// A derivative coefficient that is defined is the coefficient one degree up,
/// multiplied by that degree.
proof fn lemma_derived_component(coefficients: Seq<Seq<Option<real>>>, i: int, k: int)
    requires
        0 <= i,
        i + 1 < coefficients.len(),
        0 <= k < coefficients[i + 1].len(),
        derivative_of(coefficients)[i][k] is Some,
    ensures
        coefficients[i + 1][k] is Some,
        derivative_of(coefficients)[i][k] == Some(
            (i + 1) as real * coefficients[i + 1][k].unwrap(),
        ),
{
}

/// The tangent is the derivative of the position. For a cubic curve, in every
/// component in which the values are defined, the change of position from
/// parameter `x` to `x + h` is `h` times the tangent at `x` plus a rest of second
/// order in `h`: with power-basis coefficients `c2` and `c3` of degrees two and
/// three the rest is `h * h * (c2 + (3 * x + h) * c3)`. So the difference quotient
/// differs from the tangent by `h * (c2 + (3 * x + h) * c3)`, which vanishes with
/// `h`.
pub proof fn lemma_cubic_tangent_is_derivative<const DIM: usize>(
    curve: GenericBezierCurve<DIM>,
    k: int,
    x: real,
    h: real,
)
    requires
        curve.coefficients.len() == 4,
        0 <= k < DIM,
        curve.point_at(Some(x)).unwrap()[k] is Some,
        curve.point_at(Some(x + h)).unwrap()[k] is Some,
        curve.tangent_at(Some(x)).unwrap()[k] is Some,
    ensures
        curve.coefficients[2]@[k] is Some,
        curve.coefficients[3]@[k] is Some,
        curve.point_at(Some(x + h)).unwrap()[k].unwrap() - curve.point_at(Some(x)).unwrap()[k].unwrap()
            == h * curve.tangent_at(Some(x)).unwrap()[k].unwrap() + h * h * (
        curve.coefficients[2]@[k].unwrap() + ((3 as real) * x + h)
            * curve.coefficients[3]@[k].unwrap()),
{
    let coefficients = values_of(curve.coefficients@);
    let derived = derivative_of(coefficients);
    lemma_polynomial_defined(coefficients, Some(x), 4, DIM as nat, k);
    lemma_polynomial_defined(coefficients, Some(x + h), 4, DIM as nat, k);
    assert(derived.len() == 3);
    assert forall|i: int| 0 <= i < 3 implies (#[trigger] derived[i]).len() == DIM by {}
    lemma_polynomial_defined(derived, Some(x), 3, DIM as nat, k);
    lemma_derived_component(coefficients, 0, k);
    lemma_derived_component(coefficients, 1, k);
    lemma_derived_component(coefficients, 2, k);
    let c = column(coefficients, k);
    let d = column(derived, k);
    assert(d[0] == (1 as real) * c[1]);
    assert(d[1] == (2 as real) * c[2]);
    assert(d[2] == (3 as real) * c[3]);
    lemma_cubic_value(c, x);
    lemma_cubic_value(c, x + h);
    lemma_quadratic_value(d, x);
    lemma_cubic_increment(c[1], c[2], c[3], x, h);
}

/// A curve of any degree starts at its first control point: in every component in
/// which the position at parameter 0 is defined it is that of the first control
/// point.
pub proof fn lemma_curve_starts_at_first_point<const DIM: usize>(
    curve: GenericBezierCurve<DIM>,
    k: int,
)
    requires
        curve.well_formed(),
        curve.points.len() >= 1,
        0 <= k < DIM,
        curve.point_at(Some(0 as real)).unwrap()[k] is Some,
    ensures
        curve.point_at(Some(0 as real)).unwrap()[k] == curve.points[0]@[k],
{
    let coefficients = values_of(curve.coefficients@);
    let n = coefficients.len();
    assert(n == curve.points.len());
    lemma_polynomial_defined(coefficients, Some(0 as real), n, DIM as nat, k);
    lemma_value_at_zero(column(coefficients, k), n);
    assert(coefficients[0] == values_of(curve.points@)[0]);
}

/// The tangent of a curve of any degree is the derivative of its position. In
/// every component in which the values are defined, the change of position from
/// parameter `x` to `x + h` is `h` times the tangent at `x` plus a rest with the
/// factor `h * h`, which is a polynomial in `x` and `h`.
pub proof fn lemma_tangent_is_derivative_of_position<const DIM: usize>(
    curve: GenericBezierCurve<DIM>,
    k: int,
    x: real,
    h: real,
)
    requires
        curve.coefficients.len() >= 1,
        0 <= k < DIM,
        curve.point_at(Some(x)).unwrap()[k] is Some,
        curve.point_at(Some(x + h)).unwrap()[k] is Some,
        curve.tangent_at(Some(x)).unwrap()[k] is Some,
    ensures
        curve.point_at(Some(x + h)).unwrap()[k].unwrap() - curve.point_at(Some(x)).unwrap()[k].unwrap()
            == h * curve.tangent_at(Some(x)).unwrap()[k].unwrap() + h * h * polynomial_rest(
            column(values_of(curve.coefficients@), k),
            x,
            h,
            curve.coefficients.len() as nat,
        ),
{
    let coefficients = values_of(curve.coefficients@);
    let derived = derivative_of(coefficients);
    let n = coefficients.len();
    lemma_polynomial_defined(coefficients, Some(x), n, DIM as nat, k);
    lemma_polynomial_defined(coefficients, Some(x + h), n, DIM as nat, k);
    assert forall|i: int| 0 <= i < derived.len() implies (#[trigger] derived[i]).len() == DIM by {}
    lemma_polynomial_defined(derived, Some(x), derived.len(), DIM as nat, k);
    let c = column(coefficients, k);
    let d = column(derived, k);
    assert forall|i: int| 0 <= i < d.len() implies d[i] == derivative_real(c)[i] by {
        assert(derived[i][k] is Some);
        lemma_derived_component(coefficients, i, k);
    }
    assert(d =~= derivative_real(c));
    lemma_derivative(c, x, h);
}

} // verus!
