//! Bezier curves in power basis, and splines of such curves.
use vstd::prelude::*;
use crate::maths::{
    derivative_of, differentiate_coefficients, evaluate_polynomial, factorial,
    factorial_of, lemma_factorial_bound, lemma_factorial_monotonic, lemma_factorial_product,
    polynomial_value, values_of,
};
use crate::control_point::ControlPoint;
use crate::scalar::{
    exact, fraction_of, lemma_exact_in_range, lemma_product_of_ratios, lemma_quotient_of_ratios,
    lemma_ratio_equal, lemma_ratio_of_integer, lemma_sum_of_ratios, product_of, quotient_of, ratio,
    sum_of, Scalar,
};
use crate::vector::{scaled, sums, view_of, zeros, Vector};

verus! {

/// The sign `(-1)^e`.
pub open spec fn alternating_sign(e: nat) -> real {
    if e % 2 == 0 {
        1 as real
    } else {
        -1 as real
    }
}

/// The scalar value of `1 / (i! * (j - i)!)`.
pub open spec fn term_divisor(i: nat, j: nat) -> Option<real> {
    quotient_of(
        Some(1 as real),
        exact((factorial_of(i) * factorial_of((j - i) as nat)) as real),
    )
}

/// The share of control point `i` in the sum for coefficient `j`:
/// `point * (-1)^(i + j) * (1 / (i! * (j - i)!))`.
pub open spec fn bernstein_term(point: Seq<Option<real>>, i: nat, j: nat) -> Seq<Option<real>> {
    scaled(scaled(point, Some(alternating_sign(i + j))), term_divisor(i, j))
}

/// The first `terms` shares in the sum for coefficient `j`, added up in order from
/// the zero vector.
pub open spec fn bernstein_sum(points: Seq<Seq<Option<real>>>, j: nat, terms: nat, dim: nat) -> Seq<
    Option<real>,
>
    decreases terms,
{
    if terms == 0 {
        zeros(dim)
    } else {
        sums(
            bernstein_sum(points, j, (terms - 1) as nat, dim),
            bernstein_term(points[terms - 1], (terms - 1) as nat, j),
        )
    }
}

/// The scalar value of `n! / (n - j)!`.
pub open spec fn falling_ratio(n: nat, j: nat) -> Option<real> {
    quotient_of(exact(factorial_of(n) as real), exact(factorial_of((n - j) as nat) as real))
}

/// Coefficient `j` of the power-basis form of the Bezier curve with the given
/// control points: the first control point for `j == 0`, and otherwise
/// `(n! / (n - j)!) * sum over i <= j of (-1)^(i + j) / (i! * (j - i)!) * points[i]`,
/// where `n` is the degree.
pub open spec fn power_basis_coefficient(points: Seq<Seq<Option<real>>>, j: nat, dim: nat) -> Seq<
    Option<real>,
> {
    if j == 0 {
        points[0]
    } else {
        scaled(bernstein_sum(points, j, j + 1, dim), falling_ratio((points.len() - 1) as nat, j))
    }
}

/// The power-basis coefficients of the Bezier curve with the given control points:
/// as many as there are points.
pub open spec fn power_basis(points: Seq<Seq<Option<real>>>, dim: nat) -> Seq<Seq<Option<real>>> {
    Seq::new(points.len(), |j: int| power_basis_coefficient(points, j as nat, dim))
}

/// The sum for a coefficient has the dimension of its zero vector.
pub proof fn lemma_bernstein_length(points: Seq<Seq<Option<real>>>, j: nat, terms: nat, dim: nat)
    ensures
        bernstein_sum(points, j, terms, dim).len() == dim,
    decreases terms,
{
    if terms > 0 {
        lemma_bernstein_length(points, j, (terms - 1) as nat, dim);
    }
}

/// One step of the sum for a coefficient, in one component.
pub proof fn lemma_bernstein_step(
    points: Seq<Seq<Option<real>>>,
    j: nat,
    terms: nat,
    dim: nat,
    k: int,
)
    requires
        terms >= 1,
        0 <= k < dim,
        points[terms - 1].len() == dim,
    ensures
        bernstein_sum(points, j, terms, dim)[k] == sum_of(
            bernstein_sum(points, j, (terms - 1) as nat, dim)[k],
            product_of(
                term_divisor((terms - 1) as nat, j),
                product_of(Some(alternating_sign((terms - 1 + j) as nat)), points[terms - 1][k]),
            ),
        ),
{
    lemma_bernstein_length(points, j, (terms - 1) as nat, dim);
}

/// One share of the sum for a coefficient, where it is defined, as a real number.
proof fn lemma_share_defined(p: Option<real>, i: nat, j: nat)
    requires
        i <= j <= 3,
        product_of(term_divisor(i, j), product_of(Some(alternating_sign(i + j)), p)) is Some,
    ensures
        p is Some,
        product_of(term_divisor(i, j), product_of(Some(alternating_sign(i + j)), p)) == Some(
            (1 as real) / ((factorial_of(i) * factorial_of((j - i) as nat)) as real) * (
            alternating_sign(i + j) * p.unwrap()),
        ),
        factorial_of(i) * factorial_of((j - i) as nat) == if i == 0 || i == j {
            factorial_of(j)
        } else if j == 2 {
            1
        } else {
            2
        },
        factorial_of(j) == if j <= 1 {
            1int
        } else if j == 2 {
            2int
        } else {
            6int
        },
{
    reveal_with_fuel(factorial_of, 5);
    assert(factorial_of(0) == 1 && factorial_of(1) == 1 && factorial_of(2) == 2 && factorial_of(3)
        == 6);
    assert(factorial_of(0) * factorial_of(1) == 1 && factorial_of(1) * factorial_of(0) == 1);
    assert(factorial_of(0) * factorial_of(0) == 1);
    assert(factorial_of(0) * factorial_of(2) == 2 && factorial_of(1) * factorial_of(1) == 1
        && factorial_of(2) * factorial_of(0) == 2);
    assert(factorial_of(0) * factorial_of(3) == 6 && factorial_of(1) * factorial_of(2) == 2
        && factorial_of(2) * factorial_of(1) == 2 && factorial_of(3) * factorial_of(0) == 6);
}

/// The cubic coefficient of degree 1, in one component and where it is defined.
proof fn lemma_cubic_first(points: Seq<Seq<Option<real>>>, dim: nat, k: int)
    requires
        points.len() == 4,
        0 <= k < dim,
        forall|i: int| 0 <= i < 4 ==> (#[trigger] points[i]).len() == dim,
        power_basis(points, dim)[1][k] is Some,
    ensures
        points[0][k] is Some,
        points[1][k] is Some,
        power_basis(points, dim)[1][k] == Some(
            (3 as real) * (points[1][k].unwrap() - points[0][k].unwrap()),
        ),
{
    reveal_with_fuel(factorial_of, 5);
    lemma_bernstein_length(points, 1, 0, dim);
    lemma_bernstein_length(points, 1, 2, dim);
    lemma_bernstein_step(points, 1, 1, dim, k);
    lemma_bernstein_step(points, 1, 2, dim, k);
    lemma_share_defined(points[0][k], 0, 1);
    lemma_share_defined(points[1][k], 1, 1);
    let c = power_basis(points, dim)[1][k].unwrap();
    let f = falling_ratio(3, 1).unwrap();
    let b = bernstein_sum(points, 1, 2, dim)[k].unwrap();
    let p0 = points[0][k].unwrap();
    let p1 = points[1][k].unwrap();
    assert(c == f * b);
    assert(f == (6 as real) / (2 as real));
    assert(b == (0 as real) + (1 as real) / (1 as real) * ((-1 as real) * p0) + (1 as real) / (
    1 as real) * ((1 as real) * p1));
    assert(c == (3 as real) * (p1 - p0)) by (nonlinear_arith)
        requires
            c == f * b,
            f == (6 as real) / (2 as real),
            b == (0 as real) + (1 as real) / (1 as real) * ((-1 as real) * p0) + (1 as real) / (
            1 as real) * ((1 as real) * p1),
    ;
}

/// The cubic coefficient of degree 2, in one component and where it is defined.
proof fn lemma_cubic_second(points: Seq<Seq<Option<real>>>, dim: nat, k: int)
    requires
        points.len() == 4,
        0 <= k < dim,
        forall|i: int| 0 <= i < 4 ==> (#[trigger] points[i]).len() == dim,
        power_basis(points, dim)[2][k] is Some,
    ensures
        points[0][k] is Some,
        points[1][k] is Some,
        points[2][k] is Some,
        power_basis(points, dim)[2][k] == Some(
            (3 as real) * points[0][k].unwrap() - (6 as real) * points[1][k].unwrap() + (3 as real)
                * points[2][k].unwrap(),
        ),
{
    reveal_with_fuel(factorial_of, 5);
    lemma_bernstein_length(points, 2, 0, dim);
    lemma_bernstein_length(points, 2, 3, dim);
    lemma_bernstein_step(points, 2, 1, dim, k);
    lemma_bernstein_step(points, 2, 2, dim, k);
    lemma_bernstein_step(points, 2, 3, dim, k);
    lemma_share_defined(points[0][k], 0, 2);
    lemma_share_defined(points[1][k], 1, 2);
    lemma_share_defined(points[2][k], 2, 2);
    let c = power_basis(points, dim)[2][k].unwrap();
    let f = falling_ratio(3, 2).unwrap();
    let b = bernstein_sum(points, 2, 3, dim)[k].unwrap();
    let p0 = points[0][k].unwrap();
    let p1 = points[1][k].unwrap();
    let p2 = points[2][k].unwrap();
    assert(c == f * b);
    assert(f == (6 as real) / (1 as real));
    assert(b == (0 as real) + (1 as real) / (2 as real) * ((1 as real) * p0) + (1 as real) / (
    1 as real) * ((-1 as real) * p1) + (1 as real) / (2 as real) * ((1 as real) * p2));
    assert(c == (3 as real) * p0 - (6 as real) * p1 + (3 as real) * p2) by (nonlinear_arith)
        requires
            c == f * b,
            f == (6 as real) / (1 as real),
            b == (0 as real) + (1 as real) / (2 as real) * ((1 as real) * p0) + (1 as real) / (
            1 as real) * ((-1 as real) * p1) + (1 as real) / (2 as real) * ((1 as real) * p2),
    ;
}

/// The cubic coefficient of degree 3, in one component and where it is defined.
proof fn lemma_cubic_third(points: Seq<Seq<Option<real>>>, dim: nat, k: int)
    requires
        points.len() == 4,
        0 <= k < dim,
        forall|i: int| 0 <= i < 4 ==> (#[trigger] points[i]).len() == dim,
        power_basis(points, dim)[3][k] is Some,
    ensures
        points[0][k] is Some,
        points[1][k] is Some,
        points[2][k] is Some,
        points[3][k] is Some,
        power_basis(points, dim)[3][k] == Some(
            -points[0][k].unwrap() + (3 as real) * points[1][k].unwrap() - (3 as real)
                * points[2][k].unwrap() + points[3][k].unwrap(),
        ),
{
    reveal_with_fuel(factorial_of, 5);
    lemma_bernstein_length(points, 3, 0, dim);
    lemma_bernstein_length(points, 3, 4, dim);
    lemma_bernstein_step(points, 3, 1, dim, k);
    lemma_bernstein_step(points, 3, 2, dim, k);
    lemma_bernstein_step(points, 3, 3, dim, k);
    lemma_bernstein_step(points, 3, 4, dim, k);
    lemma_share_defined(points[0][k], 0, 3);
    lemma_share_defined(points[1][k], 1, 3);
    lemma_share_defined(points[2][k], 2, 3);
    lemma_share_defined(points[3][k], 3, 3);
    let c = power_basis(points, dim)[3][k].unwrap();
    let f = falling_ratio(3, 3).unwrap();
    let b = bernstein_sum(points, 3, 4, dim)[k].unwrap();
    let p0 = points[0][k].unwrap();
    let p1 = points[1][k].unwrap();
    let p2 = points[2][k].unwrap();
    let p3 = points[3][k].unwrap();
    assert(c == f * b);
    assert(f == (6 as real) / (1 as real));
    assert(b == (0 as real) + (1 as real) / (6 as real) * ((-1 as real) * p0) + (1 as real) / (
    2 as real) * ((1 as real) * p1) + (1 as real) / (2 as real) * ((-1 as real) * p2) + (
    1 as real) / (6 as real) * ((1 as real) * p3));
    assert(c == -p0 + (3 as real) * p1 - (3 as real) * p2 + p3) by (nonlinear_arith)
        requires
            c == f * b,
            f == (6 as real) / (1 as real),
            b == (0 as real) + (1 as real) / (6 as real) * ((-1 as real) * p0) + (1 as real) / (
            2 as real) * ((1 as real) * p1) + (1 as real) / (2 as real) * ((-1 as real) * p2) + (
            1 as real) / (6 as real) * ((1 as real) * p3),
    ;
}

/// The power-basis coefficients of a cubic curve, in one component and where they
/// are defined, in closed form: with control values `p0`, `p1`, `p2`, `p3` they
/// are `p0`, `3 (p1 - p0)`, `3 p0 - 6 p1 + 3 p2` and `-p0 + 3 p1 - 3 p2 + p3`.
pub proof fn lemma_cubic_coefficients(points: Seq<Seq<Option<real>>>, dim: nat, k: int)
    requires
        points.len() == 4,
        0 <= k < dim,
        forall|i: int| 0 <= i < 4 ==> (#[trigger] points[i]).len() == dim,
    ensures
        power_basis(points, dim)[0][k] == points[0][k],
        power_basis(points, dim)[1][k] matches Some(c) ==> {
            &&& points[0][k] is Some
            &&& points[1][k] is Some
            &&& c == (3 as real) * (points[1][k].unwrap() - points[0][k].unwrap())
        },
        power_basis(points, dim)[2][k] matches Some(c) ==> {
            &&& points[0][k] is Some
            &&& points[1][k] is Some
            &&& points[2][k] is Some
            &&& c == (3 as real) * points[0][k].unwrap() - (6 as real) * points[1][k].unwrap() + (
            3 as real) * points[2][k].unwrap()
        },
        power_basis(points, dim)[3][k] matches Some(c) ==> {
            &&& points[0][k] is Some
            &&& points[1][k] is Some
            &&& points[2][k] is Some
            &&& points[3][k] is Some
            &&& c == -points[0][k].unwrap() + (3 as real) * points[1][k].unwrap() - (3 as real)
                * points[2][k].unwrap() + points[3][k].unwrap()
        },
{
    if power_basis(points, dim)[1][k] is Some {
        lemma_cubic_first(points, dim, k);
    }
    if power_basis(points, dim)[2][k] is Some {
        lemma_cubic_second(points, dim, k);
    }
    if power_basis(points, dim)[3][k] is Some {
        lemma_cubic_third(points, dim, k);
    }
}

/// The largest magnitude of integer control values for which every step towards
/// the coefficients of a cubic, and towards its end points, is sure to be defined.
pub const LATTICE_BOUND: i64 = 0x4_0000_0000_0000;

/// Whether the scalar value is the integer `p`, of magnitude up to
/// `LATTICE_BOUND`.
pub open spec fn on_lattice(v: Option<real>, p: int) -> bool {
    v == Some(p as real) && -LATTICE_BOUND <= p <= LATTICE_BOUND
}

/// The share of an integer control value in the sum for a cubic coefficient is
/// defined: it is the value with its sign, over 1, 2 or 6.
proof fn lemma_share_on_lattice(v: Option<real>, p: int, i: nat, j: nat, sign: int, d: int)
    requires
        i <= j <= 3,
        on_lattice(v, p),
        sign == if (i + j) % 2 == 0 {
            1int
        } else {
            -1int
        },
        d == factorial_of(i) * factorial_of((j - i) as nat),
    ensures
        1 <= d <= 6,
        product_of(term_divisor(i, j), product_of(Some(alternating_sign(i + j)), v)) == Some(
            ratio(sign * p, d),
        ),
{
    reveal_with_fuel(factorial_of, 5);
    assert(factorial_of(0) == 1 && factorial_of(1) == 1 && factorial_of(2) == 2 && factorial_of(3)
        == 6);
    assert(factorial_of(0) * factorial_of(0) == 1);
    assert(factorial_of(0) * factorial_of(1) == 1 && factorial_of(1) * factorial_of(0) == 1);
    assert(factorial_of(0) * factorial_of(2) == 2 && factorial_of(1) * factorial_of(1) == 1
        && factorial_of(2) * factorial_of(0) == 2);
    assert(factorial_of(0) * factorial_of(3) == 6 && factorial_of(1) * factorial_of(2) == 2
        && factorial_of(2) * factorial_of(1) == 2 && factorial_of(3) * factorial_of(0) == 6);
    assert(1 <= d <= 6);
    lemma_ratio_of_integer(1);
    lemma_ratio_of_integer(-1);
    lemma_ratio_of_integer(p);
    lemma_ratio_of_integer(d);
    let signed: int = if sign == 1 {
        p
    } else {
        -p
    };
    assert(sign * p == signed) by (nonlinear_arith)
        requires
            sign == 1 || sign == -1,
            signed == if sign == 1 {
                p
            } else {
                -p
            },
    ;
    lemma_product_of_ratios(sign, 1, p, 1);
    lemma_exact_in_range(d, 1);
    lemma_quotient_of_ratios(1, 1, d, 1);
    assert(1 * (sign * p) == sign * p && d * 1 == d && 1 * 1 == 1 && 1 * d == d);
    lemma_product_of_ratios(1, d, sign * p, 1);
}

/// The power-basis coefficients of a cubic curve with integer control values of
/// magnitude up to `LATTICE_BOUND` are all defined, and are the integers
/// `p0`, `3 (p1 - p0)`, `3 p0 - 6 p1 + 3 p2` and `-p0 + 3 p1 - 3 p2 + p3`.
pub proof fn lemma_cubic_coefficients_on_lattice(
    points: Seq<Seq<Option<real>>>,
    dim: nat,
    k: int,
    p0: int,
    p1: int,
    p2: int,
    p3: int,
)
    requires
        points.len() == 4,
        0 <= k < dim,
        forall|i: int| 0 <= i < 4 ==> (#[trigger] points[i]).len() == dim,
        on_lattice(points[0][k], p0),
        on_lattice(points[1][k], p1),
        on_lattice(points[2][k], p2),
        on_lattice(points[3][k], p3),
    ensures
        power_basis(points, dim)[0][k] == Some(p0 as real),
        power_basis(points, dim)[1][k] == Some((3 * (p1 - p0)) as real),
        power_basis(points, dim)[2][k] == Some((3 * p0 - 6 * p1 + 3 * p2) as real),
        power_basis(points, dim)[3][k] == Some((-p0 + 3 * p1 - 3 * p2 + p3) as real),
{
    reveal_with_fuel(factorial_of, 5);
    assert(factorial_of(0) == 1 && factorial_of(1) == 1 && factorial_of(2) == 2 && factorial_of(3)
        == 6);
    lemma_ratio_of_integer(0);
    lemma_ratio_of_integer(6);
    lemma_ratio_of_integer(1);
    lemma_ratio_of_integer(2);
    lemma_exact_in_range(6, 1);
    lemma_exact_in_range(1, 1);
    lemma_exact_in_range(2, 1);
    // degree 1: 3! / 2! times (-p0 + p1)
    lemma_bernstein_length(points, 1, 0, dim);
    lemma_bernstein_step(points, 1, 1, dim, k);
    lemma_bernstein_step(points, 1, 2, dim, k);
    lemma_share_on_lattice(points[0][k], p0, 0, 1, -1, 1);
    lemma_share_on_lattice(points[1][k], p1, 1, 1, 1, 1);
    lemma_sum_of_ratios(0, 1, -1 * p0, 1);
    lemma_sum_of_ratios(-p0, 1, 1 * p1, 1);
    assert(bernstein_sum(points, 1, 2, dim)[k] == Some(ratio(p1 - p0, 1)));
    lemma_quotient_of_ratios(6, 1, 2, 1);
    lemma_product_of_ratios(6, 2, p1 - p0, 1);
    lemma_ratio_equal(6 * (p1 - p0), 2, 3 * (p1 - p0), 1);
    lemma_ratio_of_integer(3 * (p1 - p0));
    // degree 2: 3! / 1! times (p0 / 2 - p1 + p2 / 2)
    lemma_bernstein_length(points, 2, 0, dim);
    lemma_bernstein_step(points, 2, 1, dim, k);
    lemma_bernstein_step(points, 2, 2, dim, k);
    lemma_bernstein_step(points, 2, 3, dim, k);
    lemma_share_on_lattice(points[0][k], p0, 0, 2, 1, 2);
    lemma_share_on_lattice(points[1][k], p1, 1, 2, -1, 1);
    lemma_share_on_lattice(points[2][k], p2, 2, 2, 1, 2);
    lemma_sum_of_ratios(0, 1, 1 * p0, 2);
    lemma_sum_of_ratios(p0, 2, -1 * p1, 1);
    lemma_sum_of_ratios(p0 - 2 * p1, 2, 1 * p2, 2);
    assert(bernstein_sum(points, 2, 3, dim)[k] == Some(ratio(2 * p0 - 4 * p1 + 2 * p2, 4)));
    lemma_quotient_of_ratios(6, 1, 1, 1);
    lemma_product_of_ratios(6, 1, 2 * p0 - 4 * p1 + 2 * p2, 4);
    lemma_ratio_equal(6 * (2 * p0 - 4 * p1 + 2 * p2), 4, 3 * p0 - 6 * p1 + 3 * p2, 1);
    lemma_ratio_of_integer(3 * p0 - 6 * p1 + 3 * p2);
    // degree 3: 3! / 0! times (-p0 / 6 + p1 / 2 - p2 / 2 + p3 / 6)
    lemma_bernstein_length(points, 3, 0, dim);
    lemma_bernstein_step(points, 3, 1, dim, k);
    lemma_bernstein_step(points, 3, 2, dim, k);
    lemma_bernstein_step(points, 3, 3, dim, k);
    lemma_bernstein_step(points, 3, 4, dim, k);
    lemma_share_on_lattice(points[0][k], p0, 0, 3, -1, 6);
    lemma_share_on_lattice(points[1][k], p1, 1, 3, 1, 2);
    lemma_share_on_lattice(points[2][k], p2, 2, 3, -1, 2);
    lemma_share_on_lattice(points[3][k], p3, 3, 3, 1, 6);
    lemma_sum_of_ratios(0, 1, -1 * p0, 6);
    lemma_sum_of_ratios(-p0, 6, 1 * p1, 2);
    lemma_sum_of_ratios(-2 * p0 + 6 * p1, 12, -1 * p2, 2);
    lemma_sum_of_ratios(-4 * p0 + 12 * p1 - 12 * p2, 24, 1 * p3, 6);
    assert(bernstein_sum(points, 3, 4, dim)[k] == Some(
        ratio(-24 * p0 + 72 * p1 - 72 * p2 + 24 * p3, 144),
    ));
    lemma_product_of_ratios(6, 1, -24 * p0 + 72 * p1 - 72 * p2 + 24 * p3, 144);
    lemma_ratio_equal(
        6 * (-24 * p0 + 72 * p1 - 72 * p2 + 24 * p3),
        144,
        -p0 + 3 * p1 - 3 * p2 + p3,
        1,
    );
    lemma_ratio_of_integer(-p0 + 3 * p1 - 3 * p2 + p3);
}

/// The most control points a curve can have: the factorial of the degree has to
/// fit in 128 bits.
pub const MAX_CONTROL_POINTS: usize = 35;

/// Converts Bezier control points to power-basis coefficients, as many as there
/// are points and none for no points. The first coefficient is the first point;
/// coefficient `j` is `n! / (n - j)!` times the sum, over the points `i` up to `j`,
/// of `(-1)^(i + j) / (i! * (j - i)!)` times the point, where `n` is the degree.
pub fn generate_coefficients<const DIM: usize>(points: &Vec<Vector<DIM>>) -> (coeffs: Vec<
    Vector<DIM>,
>)
    requires
        points.len() <= MAX_CONTROL_POINTS,
    ensures
        values_of(coeffs@) == power_basis(values_of(points@), DIM as nat),
{
    let ghost model = values_of(points@);
    let mut coeffs: Vec<Vector<DIM>> = Vec::new();
    if points.len() == 0 {
        assert(values_of(coeffs@) =~= power_basis(model, DIM as nat));
        return coeffs;
    }
    coeffs.push(points[0]);
    let n: usize = points.len() - 1;
    let mut j: usize = 1;
    while j <= n
        invariant
            1 <= j <= n + 1,
            n + 1 == points.len(),
            n < MAX_CONTROL_POINTS,
            model == values_of(points@),
            coeffs.len() == j,
            forall|c: int|
                0 <= c < j ==> coeffs[c]@ == power_basis_coefficient(model, c as nat, DIM as nat),
        decreases n + 1 - j,
    {
        let first_multiplier = Scalar::from_u128(factorial(n as u128)).div(
            Scalar::from_u128(factorial((n - j) as u128)),
        );
        let mut summation: Vector<DIM> = Vector::zero();
        let mut i: usize = 0;
        while i <= j
            invariant
                i <= j + 1,
                j <= n,
                n + 1 == points.len(),
                n < MAX_CONTROL_POINTS,
                model == values_of(points@),
                summation@ == bernstein_sum(model, j as nat, i as nat, DIM as nat),
            decreases j + 1 - i,
        {
            let sign: i64 = if (i + j) % 2 == 0 {
                1
            } else {
                -1
            };
            let numerator = points[i] * Scalar::from_int(sign);
            proof {
                lemma_factorial_product(i as nat, (j - i) as nat);
                lemma_factorial_monotonic(j as nat, 34);
                lemma_factorial_bound(34);
            }
            let denominator: u128 = factorial(i as u128) * factorial((j - i) as u128);
            let value = numerator * Scalar::one().div(Scalar::from_u128(denominator));
            summation = summation.add_vector(&value);
            i = i + 1;
        }
        coeffs.push(summation * first_multiplier);
        j = j + 1;
    }
    assert(values_of(coeffs@) =~= power_basis(model, DIM as nat));
    coeffs
}

/// A parametric curve that is evaluated at a scalar parameter.
pub trait BezierCurve<const DIM: usize> {
    /// The position at parameter `t`, or nothing where the curve has none.
    spec fn point_at(&self, t: Option<real>) -> Option<Seq<Option<real>>>;

    /// The derivative of the position at parameter `t`, or nothing where the curve
    /// has none.
    spec fn tangent_at(&self, t: Option<real>) -> Option<Seq<Option<real>>>;

    fn get_point_along_curve(&self, t: Scalar) -> (r: Option<Vector<DIM>>)
        ensures
            view_of(r) == self.point_at(t@),
    ;

    fn get_tangent_along_curve(&self, t: Scalar) -> (r: Option<Vector<DIM>>)
        ensures
            view_of(r) == self.tangent_at(t@),
    ;
}

/// One Bezier curve of any degree: its control points, and the power-basis
/// coefficients derived from them.
#[derive(Debug)]
pub struct GenericBezierCurve<const DIM: usize> {
    pub points: Vec<Vector<DIM>>,
    pub coefficients: Vec<Vector<DIM>>,
}

impl<const DIM: usize> GenericBezierCurve<DIM> {
    /// Whether the coefficients are those of the control points.
    pub open spec fn well_formed(&self) -> bool {
        values_of(self.coefficients@) == power_basis(values_of(self.points@), DIM as nat)
    }

    /// The curve with the given control points.
    pub fn new(points: Vec<Vector<DIM>>) -> (curve: Self)
        requires
            points.len() <= MAX_CONTROL_POINTS,
        ensures
            curve.points == points,
            curve.well_formed(),
    {
        let coefficients = generate_coefficients(&points);
        Self { points, coefficients }
    }
}

impl<const DIM: usize> BezierCurve<DIM> for GenericBezierCurve<DIM> {
    /// The polynomial with the stored coefficients, at `t`. It is defined for every
    /// `t`, inside the unit interval or not.
    open spec fn point_at(&self, t: Option<real>) -> Option<Seq<Option<real>>> {
        Some(
            polynomial_value(
                values_of(self.coefficients@),
                t,
                self.coefficients.len() as nat,
                DIM as nat,
            ),
        )
    }

    /// The derivative polynomial of the stored coefficients, at `t`.
    open spec fn tangent_at(&self, t: Option<real>) -> Option<Seq<Option<real>>> {
        let derived = derivative_of(values_of(self.coefficients@));
        Some(polynomial_value(derived, t, derived.len(), DIM as nat))
    }

    fn get_point_along_curve(&self, t: Scalar) -> (r: Option<Vector<DIM>>) {
        Some(evaluate_polynomial(&self.coefficients, t))
    }

    fn get_tangent_along_curve(&self, t: Scalar) -> (r: Option<Vector<DIM>>) {
        let differentiated_polynomial = differentiate_coefficients(&self.coefficients);
        Some(evaluate_polynomial(&differentiated_polynomial, t))
    }
}

/// Where a global parameter falls in a spline of `segments` segments of equal
/// width: the index of the segment and the parameter inside it. The segment is
/// `floor(t * segments)` and the local parameter is what is left above the floor.
/// The global parameter 1 is the end of the last segment. There is no place for a
/// parameter whose segment would lie outside the spline.
pub open spec fn locate(t: Option<real>, segments: nat) -> Option<(nat, Option<real>)> {
    if t == Some(1 as real) {
        if segments == 0 {
            None
        } else {
            Some(((segments - 1) as nat, Some(1 as real)))
        }
    } else {
        match product_of(t, exact(segments as real)) {
            Some(x) => if 0 <= x.floor() < segments {
                Some((x.floor() as nat, fraction_of(Some(x))))
            } else {
                None
            },
            None => None,
        }
    }
}

/// The segment and local parameter for the global parameter `t`.
pub fn locate_segment(t: Scalar, segments: usize) -> (place: Option<(usize, Scalar)>)
    ensures
        match place {
            Some((index, local)) => locate(t@, segments as nat) == Some((index as nat, local@)),
            None => locate(t@, segments as nat) is None,
        },
{
    let one = Scalar::one();
    if t == one {
        if segments == 0 {
            return None;
        }
        return Some((segments - 1, one));
    }
    let t_unnormalised = t.mul(Scalar::from_usize(segments));
    match t_unnormalised.floor() {
        None => None,
        Some(floor) => {
            if floor < 0 || floor as u64 >= segments as u64 {
                return None;
            }
            Some((floor as usize, t_unnormalised.fract()))
        },
    }
}

/// Several curves in a row, evaluated as one curve over the unit interval: each
/// curve has an equal share of it.
pub struct GenericBezierSpline<const DIM: usize, C: BezierCurve<DIM> = GenericBezierCurve<DIM>> {
    pub curves: Vec<C>,
}

impl<const DIM: usize, C: BezierCurve<DIM>> GenericBezierSpline<DIM, C> {
    /// The spline of the given curves, in their order.
    pub fn from_curves(curves: Vec<C>) -> (spline: Self)
        ensures
            spline.curves == curves,
    {
        Self { curves }
    }

    fn get_curve_relative_t(&self, t: Scalar) -> (place: Option<(usize, Scalar)>)
        ensures
            match place {
                Some((index, local)) => locate(t@, self.curves.len() as nat) == Some(
                    (index as nat, local@),
                ),
                None => locate(t@, self.curves.len() as nat) is None,
            },
    {
        locate_segment(t, self.curves.len())
    }
}

impl<const DIM: usize, C: BezierCurve<DIM>> BezierCurve<DIM> for GenericBezierSpline<DIM, C> {
    /// The position on the segment in which `t` falls, at the local parameter.
    open spec fn point_at(&self, t: Option<real>) -> Option<Seq<Option<real>>> {
        match locate(t, self.curves.len() as nat) {
            Some((index, local)) => self.curves[index as int].point_at(local),
            None => None,
        }
    }

    /// The tangent of the segment in which `t` falls, at the local parameter.
    open spec fn tangent_at(&self, t: Option<real>) -> Option<Seq<Option<real>>> {
        match locate(t, self.curves.len() as nat) {
            Some((index, local)) => self.curves[index as int].tangent_at(local),
            None => None,
        }
    }

    fn get_point_along_curve(&self, t: Scalar) -> (r: Option<Vector<DIM>>) {
        let (curve_index, curve_relative_t) = self.get_curve_relative_t(t)?;
        self.curves[curve_index].get_point_along_curve(curve_relative_t)
    }

    fn get_tangent_along_curve(&self, t: Scalar) -> (r: Option<Vector<DIM>>) {
        let (curve_index, curve_relative_t) = self.get_curve_relative_t(t)?;
        self.curves[curve_index].get_tangent_along_curve(curve_relative_t)
    }
}

/// The end of a spline is the end of its last segment: at the global parameter 1
/// a spline with at least one segment has the position, and the tangent, of its
/// last segment at the local parameter 1.
pub proof fn lemma_end_is_last_segment<const DIM: usize, C: BezierCurve<DIM>>(
    spline: GenericBezierSpline<DIM, C>,
)
    requires
        spline.curves.len() > 0,
    ensures
        spline.point_at(Some(1 as real)) == spline.curves[spline.curves.len() - 1].point_at(
            Some(1 as real),
        ),
        spline.tangent_at(Some(1 as real)) == spline.curves[spline.curves.len() - 1].tangent_at(
            Some(1 as real),
        ),
{
}

/// A parameter from 0 up to, not including, 1 falls in the segment
/// `floor(t * segments)`, which is one of the spline, as soon as a scalar can hold
/// the number of segments and the product.
pub proof fn lemma_locate_inside(t: real, segments: nat)
    requires
        0 as real <= t < 1 as real,
        segments > 0,
        product_of(Some(t), exact(segments as real)) is Some,
    ensures
        locate(Some(t), segments) is Some,
        locate(Some(t), segments).unwrap().0 == (t * segments as real).floor(),
        locate(Some(t), segments).unwrap().0 < segments,
{
    let n = segments as real;
    let x = t * n;
    assert(0 as real <= x < n) by (nonlinear_arith)
        requires
            x == t * n,
            0 as real <= t < 1 as real,
            n > 0 as real,
    ;
}

/// A spline without segments has no position anywhere.
pub proof fn lemma_empty_spline_has_no_point(t: Option<real>)
    ensures
        locate(t, 0) is None,
{
    if t is Some && t != Some(1 as real) {
        let p = product_of(t, exact(0 as real));
        if p is Some {
            let z = 0 as real;
            assert(t.unwrap() * z == z) by (nonlinear_arith)
                requires
                    z == 0 as real,
            ;
        }
    }
}

/// The control polygon of segment `k` of a spline through control points: the
/// anchor of point `k`, its outgoing handle, the incoming handle of point `k + 1`,
/// and the anchor of point `k + 1`.
pub open spec fn segment_between<const DIM: usize, P: ControlPoint<DIM>>(
    points: Seq<P>,
    k: int,
) -> Seq<Seq<Option<real>>> {
    seq![
        points[k].position(),
        points[k].second_handle(),
        points[k + 1].first_handle(),
        points[k + 1].position(),
    ]
}

impl<const DIM: usize> GenericBezierSpline<DIM, GenericBezierCurve<DIM>> {
    fn cubic_bezier_from_points(points: [Vector<DIM>; 4]) -> (curve: GenericBezierCurve<DIM>)
        ensures
            curve.points@ == points@,
            curve.well_formed(),
    {
        let mut list: Vec<Vector<DIM>> = Vec::new();
        list.push(points[0]);
        list.push(points[1]);
        list.push(points[2]);
        list.push(points[3]);
        assert(list@ =~= points@);
        GenericBezierCurve::new(list)
    }

    /// The spline of chained cubic curves through a flat list of points: anchor,
    /// handle, handle, anchor, handle, handle, anchor and so on. Each curve takes
    /// four points, and the last point of one curve is the first of the next. A
    /// list of any other length than one more than a multiple of three gives
    /// nothing.
    pub fn cubic_from_points(points: &Vec<Vector<DIM>>) -> (spline: Option<Self>)
        ensures
            spline is Some <==> points.len() % 3 == 1,
            spline matches Some(s) ==> {
                &&& s.curves.len() == (points.len() - 1) / 3
                &&& forall|k: int|
                    0 <= k < s.curves.len() ==> {
                        &&& (#[trigger] s.curves[k]).points@ == points@.subrange(3 * k, 3 * k + 4)
                        &&& s.curves[k].well_formed()
                    }
            },
    {
        if points.len() % 3 != 1 {
            return None;
        }
        let count: usize = (points.len() - 1) / 3;
        let mut curves: Vec<GenericBezierCurve<DIM>> = Vec::new();
        let mut curve_index: usize = 0;
        while curve_index < count
            invariant
                curve_index <= count,
                points.len() == 3 * count + 1,
                curves.len() == curve_index,
                forall|k: int|
                    0 <= k < curve_index ==> {
                        &&& (#[trigger] curves[k]).points@ == points@.subrange(3 * k, 3 * k + 4)
                        &&& curves[k].well_formed()
                    },
            decreases count - curve_index,
        {
            let start_index: usize = curve_index * 3;
            let point1 = points[start_index];
            let point2 = points[start_index + 1];
            let point3 = points[start_index + 2];
            let point4 = points[start_index + 3];
            let curve = Self::cubic_bezier_from_points([point1, point2, point3, point4]);
            assert(curve.points@ =~= points@.subrange(3 * curve_index, 3 * curve_index + 4));
            curves.push(curve);
            curve_index = curve_index + 1;
        }
        Some(Self { curves })
    }

    /// The spline of cubic curves between consecutive control points. Curve `k`
    /// runs from point `k` to point `k + 1`, leaving along the second handle of the
    /// one and arriving along the first handle of the other. The first handle of
    /// the first point and the second handle of the last point take no part.
    pub fn cubic_from_control_points<P: ControlPoint<DIM>>(points: &Vec<P>) -> (spline: Self)
        ensures
            points.len() == 0 ==> spline.curves.len() == 0,
            points.len() > 0 ==> spline.curves.len() == points.len() - 1,
            forall|k: int|
                0 <= k < spline.curves.len() ==> {
                    &&& values_of((#[trigger] spline.curves[k]).points@) == segment_between(
                        points@,
                        k,
                    )
                    &&& spline.curves[k].well_formed()
                },
    {
        let mut curves: Vec<GenericBezierCurve<DIM>> = Vec::new();
        let mut curve_index: usize = 0;
        while curve_index + 1 < points.len()
            invariant
                curve_index < points.len() || points.len() == 0,
                points.len() == 0 ==> curve_index == 0,
                curves.len() == curve_index,
                forall|k: int|
                    0 <= k < curve_index ==> {
                        &&& values_of((#[trigger] curves[k]).points@) == segment_between(
                            points@,
                            k,
                        )
                        &&& curves[k].well_formed()
                    },
            decreases points.len() - curve_index,
        {
            let point1 = points[curve_index].get_control_point_position();
            let point2 = points[curve_index].get_second_handle();
            let point3 = points[curve_index + 1].get_first_handle();
            let point4 = points[curve_index + 1].get_control_point_position();
            let curve = Self::cubic_bezier_from_points([point1, point2, point3, point4]);
            assert(values_of(curve.points@) =~= segment_between(points@, curve_index as int));
            curves.push(curve);
            curve_index = curve_index + 1;
        }
        Self { curves }
    }
}

} // verus!
