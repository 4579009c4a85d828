//! Real polynomials and their derivatives.
//!
//! The increment of a polynomial from `x` to `x + h` is `h` times its derivative at
//! `x` and a rest that carries the factor `h * h`. The rest is itself a polynomial
//! in `x` and `h`, given here term by term.
use vstd::prelude::*;
use crate::maths::polynomial_real;
use crate::scalar::power_real;

verus! {

/// The coefficients of the derivative of the real polynomial with coefficients `c`.
pub open spec fn derivative_real(c: Seq<real>) -> Seq<real> {
    Seq::new(
        if c.len() == 0 {
            0
        } else {
            (c.len() - 1) as nat
        },
        |i: int| (i + 1) as real * c[i + 1],
    )
}

/// The derivative of `x^i`: `i * x^(i - 1)`, and 0 for the constant.
pub open spec fn monomial_slope(x: real, i: nat) -> real {
    if i == 0 {
        0 as real
    } else {
        i as real * power_real(x, (i - 1) as nat)
    }
}

/// What `(x + h)^i` has beyond `x^i + h * i * x^(i - 1)`, divided by `h * h`.
pub open spec fn monomial_rest(x: real, h: real, i: nat) -> real
    decreases i,
{
    if i == 0 {
        0 as real
    } else {
        monomial_slope(x, (i - 1) as nat) + (x + h) * monomial_rest(x, h, (i - 1) as nat)
    }
}

/// The rest of the first `terms` terms of a polynomial: the sum of the rests of
/// its monomials, each times its coefficient.
pub open spec fn polynomial_rest(c: Seq<real>, x: real, h: real, terms: nat) -> real
    decreases terms,
{
    if terms == 0 {
        0 as real
    } else {
        polynomial_rest(c, x, h, (terms - 1) as nat) + monomial_rest(x, h, (terms - 1) as nat)
            * c[terms - 1]
    }
}

/// The sum of the first `terms` monomial derivatives, each times its coefficient.
pub open spec fn slope_sum(c: Seq<real>, x: real, terms: nat) -> real
    decreases terms,
{
    if terms == 0 {
        0 as real
    } else {
        slope_sum(c, x, (terms - 1) as nat) + monomial_slope(x, (terms - 1) as nat) * c[terms - 1]
    }
}

/// Sums and products of real numbers, multiplied out and regrouped.
proof fn lemma_ring(a: real, b: real, c: real)
    ensures
        (a + b) * c == a * c + b * c,
        c * (a + b) == c * a + c * b,
        (a * b) * c == a * (b * c),
        a * b == b * a,
{
    assert((a + b) * c == a * c + b * c) by (nonlinear_arith);
    assert(c * (a + b) == c * a + c * b) by (nonlinear_arith);
    assert((a * b) * c == a * (b * c)) by (nonlinear_arith);
    assert(a * b == b * a) by (nonlinear_arith);
}

/// The derivative of a monomial, times `x`, is the monomial times its degree.
proof fn lemma_slope_times_x(x: real, i: nat)
    ensures
        monomial_slope(x, i) * x == i as real * power_real(x, i),
{
    if i == 0 {
        let z = 0 as real;
        let p = power_real(x, 0);
        assert(z * x == z * p) by (nonlinear_arith)
            requires
                z == 0 as real,
        ;
    } else {
        let n = i as real;
        let q = power_real(x, (i - 1) as nat);
        assert(power_real(x, i) == q * x);
        lemma_ring(n, q, x);
    }
}

/// The increment of a power: `(x + h)^i == x^i + h * slope + h * h * rest`.
pub proof fn lemma_power_increment(x: real, h: real, i: nat)
    ensures
        power_real(x + h, i) == power_real(x, i) + h * monomial_slope(x, i) + h * h
            * monomial_rest(x, h, i),
    decreases i,
{
    if i == 0 {
        let z = 0 as real;
        assert(h * z == z && h * h * z == z) by (nonlinear_arith)
            requires
                z == 0 as real,
        ;
    } else {
        let j = (i - 1) as nat;
        lemma_power_increment(x, h, j);
        lemma_slope_times_x(x, j);
        let y = x + h;
        let hh = h * h;
        let big_x = power_real(x, j);
        let s = monomial_slope(x, j);
        let r = monomial_rest(x, h, j);
        let n = j as real;
        // (X + h S + hh R) (x + h), multiplied out
        assert(power_real(y, i) == (big_x + h * s + hh * r) * y);
        lemma_ring(big_x + h * s, hh * r, y);
        lemma_ring(big_x, h * s, y);
        lemma_ring(x, h, big_x);
        lemma_ring(big_x, x, h);
        assert(big_x * y == big_x * x + h * big_x);
        lemma_ring(x, h, h * s);
        lemma_ring(h, s, x);
        lemma_ring(h, s, h);
        lemma_ring(s, h, h);
        lemma_ring(h * s, h, x);
        lemma_ring(h, h, s);
        assert((h * s) * y == h * (s * x) + hh * s);
        lemma_ring(hh, r, y);
        lemma_ring(r, y, hh);
        lemma_ring(y, r, hh);
        assert((hh * r) * y == hh * (y * r));
        // the new slope and the new rest
        assert(s * x == n * big_x);
        assert(monomial_slope(x, i) == (n + 1 as real) * big_x);
        lemma_ring(n, 1 as real, big_x);
        lemma_ring(big_x, n * big_x, h);
        assert(h * monomial_slope(x, i) == h * big_x + h * (n * big_x));
        assert(monomial_rest(x, h, i) == s + y * r);
        lemma_ring(s, y * r, hh);
        assert(hh * monomial_rest(x, h, i) == hh * s + hh * (y * r));
        assert(power_real(x, i) == big_x * x);
    }
}

/// The increment of a polynomial: from `x` to `x + h` its value changes by `h`
/// times the sum of the derivatives of its terms and by `h * h` times its rest.
pub proof fn lemma_polynomial_increment(c: Seq<real>, x: real, h: real, terms: nat)
    ensures
        polynomial_real(c, x + h, terms) == polynomial_real(c, x, terms) + h * slope_sum(
            c,
            x,
            terms,
        ) + h * h * polynomial_rest(c, x, h, terms),
    decreases terms,
{
    if terms == 0 {
        let z = 0 as real;
        assert(h * z == z && h * h * z == z) by (nonlinear_arith)
            requires
                z == 0 as real,
        ;
    } else {
        let j = (terms - 1) as nat;
        lemma_polynomial_increment(c, x, h, j);
        lemma_power_increment(x, h, j);
        let hh = h * h;
        let a = c[terms - 1];
        let big_x = power_real(x, j);
        let s = monomial_slope(x, j);
        let r = monomial_rest(x, h, j);
        assert(power_real(x + h, j) * a == (big_x + h * s + hh * r) * a);
        lemma_ring(big_x + h * s, hh * r, a);
        lemma_ring(big_x, h * s, a);
        lemma_ring(h, s, a);
        lemma_ring(hh, r, a);
        assert(power_real(x + h, j) * a == big_x * a + h * (s * a) + hh * (r * a));
        lemma_ring(slope_sum(c, x, j), s * a, h);
        lemma_ring(polynomial_rest(c, x, h, j), r * a, hh);
    }
}

/// The sum of the derivatives of the terms is the polynomial of the derivative
/// coefficients.
pub proof fn lemma_slope_sum_is_derivative(c: Seq<real>, x: real, terms: nat)
    requires
        1 <= terms <= c.len(),
    ensures
        slope_sum(c, x, terms) == polynomial_real(derivative_real(c), x, (terms - 1) as nat),
    decreases terms,
{
    let d = derivative_real(c);
    if terms == 1 {
        let z = 0 as real;
        assert(z * c[0] == z) by (nonlinear_arith)
            requires
                z == 0 as real,
        ;
        assert(slope_sum(c, x, 0) == z);
        assert(polynomial_real(d, x, 0) == z);
    } else {
        let j = (terms - 1) as nat;
        lemma_slope_sum_is_derivative(c, x, j);
        let n = j as real;
        let q = power_real(x, (j - 1) as nat);
        assert(monomial_slope(x, j) == n * q);
        assert(d[j - 1] == n * c[j as int]);
        lemma_ring(n, q, c[j as int]);
        lemma_ring(q, n, c[j as int]);
        lemma_ring(n, q, 0 as real);
        assert((n * q) * c[j as int] == q * (n * c[j as int]));
    }
}

/// The derivative of a polynomial is the polynomial of its derivative
/// coefficients: from `x` to `x + h` the value of a polynomial with at least one
/// coefficient changes by `h` times the value of the derivative polynomial at `x`
/// and by a rest with the factor `h * h`.
pub proof fn lemma_derivative(c: Seq<real>, x: real, h: real)
    requires
        c.len() >= 1,
    ensures
        polynomial_real(c, x + h, c.len()) - polynomial_real(c, x, c.len()) == h * polynomial_real(
            derivative_real(c),
            x,
            derivative_real(c).len(),
        ) + h * h * polynomial_rest(c, x, h, c.len()),
{
    lemma_polynomial_increment(c, x, h, c.len());
    lemma_slope_sum_is_derivative(c, x, c.len());
}

/// A polynomial with at least one coefficient has, at 0, the value of its
/// constant coefficient.
pub proof fn lemma_value_at_zero(c: Seq<real>, terms: nat)
    requires
        terms >= 1,
    ensures
        polynomial_real(c, 0 as real, terms) == c[0],
    decreases terms,
{
    let z = 0 as real;
    if terms == 1 {
        let u = power_real(z, 0);
        assert(polynomial_real(c, z, 0) == z);
        assert(u * c[0] == c[0]) by (nonlinear_arith)
            requires
                u == 1 as real,
        ;
    } else {
        let j = (terms - 1) as nat;
        lemma_value_at_zero(c, j);
        let q = power_real(z, (j - 1) as nat);
        assert(power_real(z, j) == q * z);
        assert((q * z) * c[j as int] == z) by (nonlinear_arith)
            requires
                z == 0 as real,
        ;
    }
}

} // verus!
