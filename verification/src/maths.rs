use vstd::prelude::*;
use crate::scalar::{exact, lemma_power_defined, power_of, power_real, Scalar};
use crate::vector::{scaled, sums, zeros, Vector};

verus! {

/// The views of a sequence of vectors.
pub open spec fn values_of<const DIM: usize>(vectors: Seq<Vector<DIM>>) -> Seq<Seq<Option<real>>> {
    Seq::new(vectors.len(), |i: int| vectors[i]@)
}

/// The sum of the first `terms` terms `coefficients[i] * t^i` of a polynomial with
/// vector coefficients, added up from the constant term on, starting from the zero
/// vector of dimension `dim`.
pub open spec fn polynomial_value(
    coefficients: Seq<Seq<Option<real>>>,
    t: Option<real>,
    terms: nat,
    dim: nat,
) -> Seq<Option<real>>
    decreases terms,
{
    if terms == 0 {
        zeros(dim)
    } else {
        sums(
            polynomial_value(coefficients, t, (terms - 1) as nat, dim),
            scaled(coefficients[terms - 1], power_of(t, (terms - 1) as nat)),
        )
    }
}

/// The coefficients of the derivative: the term of degree `i + 1` gives
/// `(i + 1) * coefficients[i + 1]` at degree `i`, and the constant term is dropped.
pub open spec fn derivative_of(coefficients: Seq<Seq<Option<real>>>) -> Seq<Seq<Option<real>>> {
    Seq::new(
        if coefficients.len() == 0 {
            0
        } else {
            (coefficients.len() - 1) as nat
        },
        |i: int| scaled(coefficients[i + 1], exact((i + 1) as real)),
    )
}

/// The product `1 * 2 * ... * n`; the empty product, for `n == 0`, is 1.
pub open spec fn factorial_of(n: nat) -> nat
    decreases n,
{
    if n == 0 {
        1
    } else {
        n * factorial_of((n - 1) as nat)
    }
}

/// The largest argument whose factorial still fits in 128 bits.
pub const MAX_FACTORIAL_ARGUMENT: u128 = 34;

/// Every factorial up to that of 34 fits in a `u128`, and 34! is the value written here.
pub proof fn lemma_factorial_bound(n: nat)
    requires
        n <= 34,
    ensures
        1 <= factorial_of(n) <= 295232799039604140847618609643520000000,
        factorial_of(n) <= u128::MAX,
{
    assert(factorial_of(0) == 1);
    assert(factorial_of(1) == 1);
    assert(factorial_of(2) == 2);
    assert(factorial_of(3) == 6);
    assert(factorial_of(4) == 24);
    assert(factorial_of(5) == 120);
    assert(factorial_of(6) == 720);
    assert(factorial_of(7) == 5040);
    assert(factorial_of(8) == 40320);
    assert(factorial_of(9) == 362880);
    assert(factorial_of(10) == 3628800);
    assert(factorial_of(11) == 39916800);
    assert(factorial_of(12) == 479001600);
    assert(factorial_of(13) == 6227020800);
    assert(factorial_of(14) == 87178291200);
    assert(factorial_of(15) == 1307674368000);
    assert(factorial_of(16) == 20922789888000);
    assert(factorial_of(17) == 355687428096000);
    assert(factorial_of(18) == 6402373705728000);
    assert(factorial_of(19) == 121645100408832000);
    assert(factorial_of(20) == 2432902008176640000);
    assert(factorial_of(21) == 51090942171709440000);
    assert(factorial_of(22) == 1124000727777607680000);
    assert(factorial_of(23) == 25852016738884976640000);
    assert(factorial_of(24) == 620448401733239439360000);
    assert(factorial_of(25) == 15511210043330985984000000);
    assert(factorial_of(26) == 403291461126605635584000000);
    assert(factorial_of(27) == 10888869450418352160768000000);
    assert(factorial_of(28) == 304888344611713860501504000000);
    assert(factorial_of(29) == 8841761993739701954543616000000);
    assert(factorial_of(30) == 265252859812191058636308480000000);
    assert(factorial_of(31) == 8222838654177922817725562880000000);
    assert(factorial_of(32) == 263130836933693530167218012160000000);
    assert(factorial_of(33) == 8683317618811886495518194401280000000);
    assert(factorial_of(34) == 295232799039604140847618609643520000000);
}

/// Factorials grow with their argument.
pub proof fn lemma_factorial_monotonic(m: nat, n: nat)
    requires
        m <= n,
    ensures
        1 <= factorial_of(m) <= factorial_of(n),
    decreases n,
{
    if n == 0 {
    } else if m == n {
        lemma_factorial_monotonic(0, (n - 1) as nat);
        assert(factorial_of(n) >= 1) by (nonlinear_arith)
            requires
                factorial_of(n) == n * factorial_of((n - 1) as nat),
                n >= 1,
                factorial_of((n - 1) as nat) >= 1,
        ;
    } else {
        lemma_factorial_monotonic(m, (n - 1) as nat);
        assert(factorial_of(n) >= factorial_of((n - 1) as nat)) by (nonlinear_arith)
            requires
                factorial_of(n) == n * factorial_of((n - 1) as nat),
                n >= 1,
                factorial_of((n - 1) as nat) >= 1,
        ;
    }
}

/// The product of two factorials is at most the factorial of the sum of their
/// arguments.
pub proof fn lemma_factorial_product(i: nat, m: nat)
    ensures
        factorial_of(i) * factorial_of(m) <= factorial_of(i + m),
    decreases m,
{
    lemma_factorial_monotonic(0, i);
    if m == 0 {
        assert(factorial_of(i) * factorial_of(0) == factorial_of(i)) by (nonlinear_arith)
            requires
                factorial_of(0) == 1,
        ;
    } else {
        lemma_factorial_product(i, (m - 1) as nat);
        lemma_factorial_monotonic(0, (m - 1) as nat);
        let a = factorial_of(i);
        let b = factorial_of((m - 1) as nat);
        let c = factorial_of((i + m - 1) as nat);
        assert(factorial_of(m) == m * b);
        assert(factorial_of(i + m) == (i + m) * c);
        assert(a * (m * b) <= (i + m) * c) by (nonlinear_arith)
            requires
                a * b <= c,
                a >= 1,
                b >= 1,
                m >= 1,
                i >= 0,
        ;
    }
}

/// Exact factorial. Arguments up to ten are answered from a table, larger ones by a
/// running product. The factorial of 35 no longer fits in 128 bits, hence the bound.
pub fn factorial(num: u128) -> (result: u128)
    requires
        num <= MAX_FACTORIAL_ARGUMENT,
    ensures
        result == factorial_of(num as nat),
{
    proof {
        lemma_factorial_bound(10);
        reveal_with_fuel(factorial_of, 11);
    }
    match num {
        0 => 1,
        1 => 1,
        2 => 2,
        3 => 6,
        4 => 24,
        5 => 120,
        6 => 720,
        7 => 5040,
        8 => 40320,
        9 => 362880,
        10 => 3628800,
        _ => {
            let mut product: u128 = 1;
            let mut factor: u128 = 1;
            while factor <= num
                invariant
                    1 <= factor <= num + 1,
                    num <= 34,
                    product == factorial_of((factor - 1) as nat),
                decreases num + 1 - factor,
            {
                proof {
                    lemma_factorial_bound(factor as nat);
                    assert(factorial_of(factor as nat) == factor * factorial_of((factor - 1) as nat));
                    assert(product * factor == factor * product) by (nonlinear_arith);
                }
                product = product * factor;
                factor = factor + 1;
            }
            product
        },
    }
}

/// The power-basis coefficients of the derivative of a polynomial.
pub fn differentiate_coefficients<const DIM: usize>(coefficients: &Vec<Vector<DIM>>) -> (derived:
    Vec<Vector<DIM>>)
    ensures
        values_of(derived@) == derivative_of(values_of(coefficients@)),
{
    let mut derived: Vec<Vector<DIM>> = Vec::new();
    let mut i: usize = 1;
    while i < coefficients.len()
        invariant
            1 <= i,
            coefficients.len() == 0 || i <= coefficients.len(),
            coefficients.len() == 0 ==> derived.len() == 0,
            coefficients.len() > 0 ==> derived.len() == i - 1,
            forall|j: int|
                0 <= j < derived.len() ==> derived[j]@ == scaled(
                    coefficients[j + 1]@,
                    exact((j + 1) as real),
                ),
        decreases coefficients.len() - i,
    {
        let factor = Scalar::from_usize(i);
        derived.push(coefficients[i] * factor);
        i = i + 1;
    }
    assert(values_of(derived@) =~= derivative_of(values_of(coefficients@)));
    derived
}

/// The value at `t` of the polynomial with the given coefficients: each term
/// `coefficients[i] * t^i` is formed and added to the sum in turn.
pub fn evaluate_polynomial<const DIM: usize>(coefficients: &Vec<Vector<DIM>>, t: Scalar) -> (value:
    Vector<DIM>)
    ensures
        value@ == polynomial_value(
            values_of(coefficients@),
            t@,
            coefficients.len() as nat,
            DIM as nat,
        ),
{
    let mut value: Vector<DIM> = Vector::zero();
    let mut i: usize = 0;
    while i < coefficients.len()
        invariant
            i <= coefficients.len(),
            value@ == polynomial_value(values_of(coefficients@), t@, i as nat, DIM as nat),
        decreases coefficients.len() - i,
    {
        let term = coefficients[i] * t.powi(i);
        value = value.add_vector(&term);
        i = i + 1;
    }
    value
}

/// Component `k` of each of a sequence of vectors, taken as real numbers. It says
/// something only where those components are defined.
pub open spec fn column(vectors: Seq<Seq<Option<real>>>, k: int) -> Seq<real> {
    Seq::new(vectors.len(), |i: int| vectors[i][k].unwrap())
}

/// The real polynomial `c[0] + c[1] x + ... + c[terms - 1] x^(terms - 1)`.
pub open spec fn polynomial_real(c: Seq<real>, x: real, terms: nat) -> real
    decreases terms,
{
    if terms == 0 {
        0 as real
    } else {
        polynomial_real(c, x, (terms - 1) as nat) + power_real(x, (terms - 1) as nat) * c[terms
            - 1]
    }
}

/// One step of the evaluation, in one component.
pub proof fn lemma_polynomial_step(
    coefficients: Seq<Seq<Option<real>>>,
    t: Option<real>,
    terms: nat,
    dim: nat,
    k: int,
)
    requires
        0 <= k < dim,
        coefficients[terms - 1].len() == dim,
        terms >= 1,
    ensures
        polynomial_value(coefficients, t, terms, dim).len() == dim,
        polynomial_value(coefficients, t, (terms - 1) as nat, dim).len() == dim,
        polynomial_value(coefficients, t, terms, dim)[k] == crate::scalar::sum_of(
            polynomial_value(coefficients, t, (terms - 1) as nat, dim)[k],
            crate::scalar::product_of(power_of(t, (terms - 1) as nat), coefficients[terms - 1][k]),
        ),
{
    lemma_polynomial_length(coefficients, t, (terms - 1) as nat, dim);
}

/// The value of a polynomial has the dimension of its zero vector.
pub proof fn lemma_polynomial_length(
    coefficients: Seq<Seq<Option<real>>>,
    t: Option<real>,
    terms: nat,
    dim: nat,
)
    ensures
        polynomial_value(coefficients, t, terms, dim).len() == dim,
    decreases terms,
{
    if terms > 0 {
        lemma_polynomial_length(coefficients, t, (terms - 1) as nat, dim);
    }
}

/// Evaluation is sound: a component of the value that is defined is the value of
/// the real polynomial whose coefficients are that component of the coefficient
/// vectors, all of which are then defined too.
pub proof fn lemma_polynomial_defined(
    coefficients: Seq<Seq<Option<real>>>,
    t: Option<real>,
    terms: nat,
    dim: nat,
    k: int,
)
    requires
        0 <= k < dim,
        terms <= coefficients.len(),
        forall|i: int| 0 <= i < terms ==> (#[trigger] coefficients[i]).len() == dim,
        t is Some,
        polynomial_value(coefficients, t, terms, dim)[k] is Some,
    ensures
        forall|i: int| 0 <= i < terms ==> (#[trigger] coefficients[i])[k] is Some,
        polynomial_value(coefficients, t, terms, dim)[k] == Some(
            polynomial_real(column(coefficients, k), t.unwrap(), terms),
        ),
    decreases terms,
{
    if terms > 0 {
        lemma_polynomial_step(coefficients, t, terms, dim, k);
        lemma_polynomial_defined(coefficients, t, (terms - 1) as nat, dim, k);
        lemma_power_defined(t, (terms - 1) as nat);
    }
}

/// The first powers of a real number, written out.
pub proof fn lemma_power_values(x: real)
    ensures
        power_real(x, 0) == 1 as real,
        power_real(x, 1) == x,
        power_real(x, 2) == x * x,
        power_real(x, 3) == x * x * x,
{
    let p0 = power_real(x, 0);
    let p1 = power_real(x, 1);
    let p2 = power_real(x, 2);
    let p3 = power_real(x, 3);
    assert(p0 == 1 as real);
    assert(p1 == p0 * x);
    assert(p2 == p1 * x);
    assert(p3 == p2 * x);
    assert(p1 == x && p2 == x * x && p3 == x * x * x) by (nonlinear_arith)
        requires
            p0 == 1 as real,
            p1 == p0 * x,
            p2 == p1 * x,
            p3 == p2 * x,
    ;
}

/// A real polynomial of three terms, written out.
pub proof fn lemma_quadratic_value(c: Seq<real>, x: real)
    ensures
        polynomial_real(c, x, 3) == c[0] + x * c[1] + x * x * c[2],
{
    lemma_power_values(x);
    let v0 = polynomial_real(c, x, 0);
    let v1 = polynomial_real(c, x, 1);
    let v2 = polynomial_real(c, x, 2);
    let v3 = polynomial_real(c, x, 3);
    assert(v0 == 0 as real);
    assert(v1 == v0 + power_real(x, 0) * c[0]);
    assert(v2 == v1 + power_real(x, 1) * c[1]);
    assert(v3 == v2 + power_real(x, 2) * c[2]);
    assert(v3 == c[0] + x * c[1] + x * x * c[2]) by (nonlinear_arith)
        requires
            v0 == 0 as real,
            v1 == v0 + (1 as real) * c[0],
            v2 == v1 + x * c[1],
            v3 == v2 + (x * x) * c[2],
    ;
}

/// A real polynomial of four terms, written out.
pub proof fn lemma_cubic_value(c: Seq<real>, x: real)
    ensures
        polynomial_real(c, x, 4) == c[0] + x * c[1] + x * x * c[2] + x * x * x * c[3],
{
    lemma_power_values(x);
    lemma_quadratic_value(c, x);
    let v3 = polynomial_real(c, x, 3);
    let v4 = polynomial_real(c, x, 4);
    assert(v4 == v3 + power_real(x, 3) * c[3]);
    assert(v4 == c[0] + x * c[1] + x * x * c[2] + x * x * x * c[3]) by (nonlinear_arith)
        requires
            v3 == c[0] + x * c[1] + x * x * c[2],
            v4 == v3 + (x * x * x) * c[3],
    ;
}

} // verus!
