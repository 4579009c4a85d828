//! Greatest common divisors and fractions in lowest terms.
//!
//! A fraction that has been divided through by the greatest common divisor of its
//! parts has the smallest numerator and denominator of all fractions of the same
//! value. The scalar type rests on this: an exact result is given up only when no
//! fraction of machine integers has its value.
use vstd::prelude::*;

verus! {

/// The greatest common divisor, by Euclid's recursion. `gcd(a, 0) == a`.
pub open spec fn gcd(a: nat, b: nat) -> nat
    decreases b,
{
    if b == 0 {
        a
    } else {
        gcd(b, a % b)
    }
}

/// The magnitude of an integer.
pub open spec fn magnitude(n: int) -> nat {
    if n < 0 {
        (-n) as nat
    } else {
        n as nat
    }
}

/// The gcd is positive as soon as one argument is.
pub proof fn lemma_gcd_positive(a: nat, b: nat)
    requires
        a > 0 || b > 0,
    ensures
        gcd(a, b) > 0,
    decreases b,
{
    if b != 0 {
        lemma_gcd_positive(b, a % b);
    }
}

/// The gcd divides both arguments: the cofactors are returned.
pub proof fn lemma_gcd_cofactors(a: nat, b: nat) -> (k: (nat, nat))
    ensures
        a == k.0 * gcd(a, b),
        b == k.1 * gcd(a, b),
    decreases b,
{
    if b == 0 {
        assert(a == 1 * a);
        assert(0 == 0 * a);
        (1, 0)
    } else {
        let g = gcd(b, a % b);
        let (kb, kr) = lemma_gcd_cofactors(b, a % b);
        let q = a / b;
        let r = a % b;
        assert(a == q * b + r) by (nonlinear_arith)
            requires
                q == a / b,
                r == a % b,
                b > 0,
        ;
        assert(q * (kb * g) + kr * g == (q * kb + kr) * g) by (nonlinear_arith);
        ((q * kb + kr) as nat, kb)
    }
}

/// Bezout's identity: the gcd is an integer combination of the arguments.
pub proof fn lemma_bezout(a: nat, b: nat) -> (c: (int, int))
    ensures
        a * c.0 + b * c.1 == gcd(a, b),
    decreases b,
{
    if b == 0 {
        assert(a * 1 + 0 * 0 == a);
        (1, 0)
    } else {
        let (x, y) = lemma_bezout(b, a % b);
        let q = (a / b) as int;
        let r = (a % b) as int;
        assert(a == q * b + r) by (nonlinear_arith)
            requires
                q == a / b,
                r == a % b,
                b > 0,
        ;
        assert(a * y + b * (x - q * y) == b * x + r * y) by (nonlinear_arith)
            requires
                a == q * b + r,
        ;
        (y, x - q * y)
    }
}

/// Two integers are coprime when some integer combination of them is 1.
pub open spec fn coprime(p: int, q: int) -> bool {
    exists|x: int, y: int| #[trigger] combination(p, q, x, y) == 1
}

/// The integer combination `p * x + q * y`.
pub open spec fn combination(p: int, q: int, x: int, y: int) -> int {
    p * x + q * y
}

/// Dividing both arguments by their gcd leaves a coprime pair.
pub proof fn lemma_cofactors_coprime(a: nat, b: nat, ka: nat, kb: nat)
    requires
        gcd(a, b) > 0,
        a == ka * gcd(a, b),
        b == kb * gcd(a, b),
    ensures
        coprime(ka as int, kb as int),
{
    let g = gcd(a, b) as int;
    let (x, y) = lemma_bezout(a, b);
    let s = ka * x + kb * y;
    assert(g * s == g) by (nonlinear_arith)
        requires
            (ka * g) * x + (kb * g) * y == g,
            s == ka * x + kb * y,
    ;
    assert(s == 1) by (nonlinear_arith)
        requires
            g * s == g,
            g > 0,
    ;
    assert(combination(ka as int, kb as int, x, y) == 1);
}

/// A coprime pair stays coprime when the first part changes sign.
pub proof fn lemma_coprime_negate(p: int, q: int)
    requires
        coprime(p, q),
    ensures
        coprime(-p, q),
{
    let (x, y) = choose|x: int, y: int| #[trigger] combination(p, q, x, y) == 1;
    assert((-p) * (-x) + q * y == p * x + q * y) by (nonlinear_arith);
    assert(combination(-p, q, -x, y) == 1);
}

/// Coprimality does not depend on the order of the pair.
pub proof fn lemma_coprime_symmetric(p: int, q: int)
    requires
        coprime(p, q),
    ensures
        coprime(q, p),
{
    let (x, y) = choose|x: int, y: int| #[trigger] combination(p, q, x, y) == 1;
    assert(combination(q, p, y, x) == 1);
}

/// A product of two numbers that are both coprime to `q` is coprime to `q`.
pub proof fn lemma_coprime_product(a: int, b: int, q: int)
    requires
        coprime(a, q),
        coprime(b, q),
    ensures
        coprime(a * b, q),
{
    let (x1, y1) = choose|x: int, y: int| #[trigger] combination(a, q, x, y) == 1;
    let (x2, y2) = choose|x: int, y: int| #[trigger] combination(b, q, x, y) == 1;
    // 1 == a x1 + q y1, and a x1 == a x1 (b x2 + q y2) because the factor is 1
    let u = a * x1;
    let x = x1 * x2;
    let y = u * y2 + y1;
    assert(u * (b * x2 + q * y2) == u * (b * x2) + u * (q * y2)) by (nonlinear_arith);
    assert(u * (b * x2) == (a * b) * x) by (nonlinear_arith)
        requires
            u == a * x1,
            x == x1 * x2,
    ;
    assert(u * (q * y2) == q * (u * y2)) by (nonlinear_arith);
    assert(q * (u * y2 + y1) == q * (u * y2) + q * y1) by (nonlinear_arith);
    assert(u * (b * x2 + q * y2) == u) by (nonlinear_arith)
        requires
            b * x2 + q * y2 == 1,
    ;
    assert(combination(a * b, q, x, y) == 1);
}

/// The squares of a coprime pair are coprime.
pub proof fn lemma_coprime_squares(p: int, q: int)
    requires
        coprime(p, q),
    ensures
        coprime(p * p, q * q),
{
    lemma_coprime_product(p, p, q);
    lemma_coprime_symmetric(p * p, q);
    lemma_coprime_product(q, q, p * p);
    lemma_coprime_symmetric(q * q, p * p);
}

/// Every fraction with a positive denominator has a form in lowest terms.
pub proof fn lemma_lowest_terms_exist(n: int, d: int) -> (r: (int, int))
    requires
        d > 0,
    ensures
        r.1 > 0,
        coprime(r.0, r.1),
        n * r.1 == r.0 * d,
        (n >= 0 ==> r.0 >= 0),
        magnitude(r.0) <= magnitude(n),
        r.1 <= d,
{
    let m = magnitude(n);
    lemma_gcd_positive(m, d as nat);
    let g = gcd(m, d as nat) as int;
    let (km, kd) = lemma_gcd_cofactors(m, d as nat);
    lemma_cofactors_coprime(m, d as nat, km, kd);
    let p: int = if n < 0 {
        -(km as int)
    } else {
        km as int
    };
    if n < 0 {
        lemma_coprime_negate(km as int, kd as int);
    }
    assert(kd > 0 && kd <= d && km <= m && n * kd == p * d) by (nonlinear_arith)
        requires
            m == km * g,
            d == kd * g,
            g > 0,
            d > 0,
            m == if n < 0 {
                -n
            } else {
                n
            },
            p == if n < 0 {
                -(km as int)
            } else {
                km as int
            },
    ;
    (p, kd as int)
}

/// A fraction `p / q` in lowest terms is the smallest of its value: any fraction
/// `m / e` with `m * q == p * e` has parts at least as large.
pub proof fn lemma_lowest_terms_least(p: int, q: int, m: int, e: int)
    requires
        coprime(p, q),
        q > 0,
        e > 0,
        m * q == p * e,
    ensures
        q <= e,
        magnitude(p) <= magnitude(m),
{
    let (x, y) = choose|x: int, y: int| #[trigger] combination(p, q, x, y) == 1;
    let k = m * x + e * y;
    // e == e * (p x + q y) == (p e) x + q e y == (m q) x + q e y == q k
    assert(e == q * k) by (nonlinear_arith)
        requires
            p * x + q * y == 1,
            m * q == p * e,
            k == m * x + e * y,
    ;
    assert(k >= 1) by (nonlinear_arith)
        requires
            e == q * k,
            q > 0,
            e > 0,
    ;
    assert(m == p * k) by (nonlinear_arith)
        requires
            m * q == p * e,
            e == q * k,
            q > 0,
    ;
    assert(q <= e) by (nonlinear_arith)
        requires
            e == q * k,
            k >= 1,
            q > 0,
    ;
    assert(magnitude(p) <= magnitude(m)) by (nonlinear_arith)
        requires
            m == p * k,
            k >= 1,
    ;
}

/// Two fractions in lowest terms, with positive denominators and the same value,
/// are the same fraction.
pub proof fn lemma_lowest_terms_unique(p: int, q: int, m: int, e: int)
    requires
        coprime(p, q),
        coprime(m, e),
        q > 0,
        e > 0,
        m * q == p * e,
    ensures
        p == m,
        q == e,
{
    lemma_lowest_terms_least(p, q, m, e);
    assert(p * e == m * q);
    lemma_lowest_terms_least(m, e, p, q);
    assert(p == m) by (nonlinear_arith)
        requires
            m * q == p * e,
            q == e,
            q > 0,
    ;
}

/// Euclid's algorithm on machine integers.
pub fn greatest_common_divisor(a: u128, b: u128) -> (g: u128)
    ensures
        g == gcd(a as nat, b as nat),
{
    let mut x: u128 = a;
    let mut y: u128 = b;
    while y != 0
        invariant
            gcd(x as nat, y as nat) == gcd(a as nat, b as nat),
        decreases y,
    {
        let r: u128 = x % y;
        x = y;
        y = r;
    }
    x
}

} // verus!
