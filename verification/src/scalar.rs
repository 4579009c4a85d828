//! Exact rational scalars.
//!
//! A [`Scalar`] is a fraction of two machine integers, or the marker *undefined*.
//! Every operation returns the exact mathematical result whenever some fraction of
//! machine integers has that value, and *undefined* otherwise: on overflow, on
//! division by zero, and whenever an operand is undefined already. Nothing is
//! rounded, so what is true of real numbers is true of every defined result.
use vstd::prelude::*;
use vstd::std_specs::cmp::PartialEqSpecImpl;
use crate::lowest_terms::{
    coprime, greatest_common_divisor, lemma_cofactors_coprime, lemma_coprime_negate,
    lemma_coprime_squares, lemma_gcd_cofactors, lemma_gcd_positive, lemma_lowest_terms_exist,
    lemma_lowest_terms_least, lemma_lowest_terms_unique,
};

verus! {

/// The largest magnitude of a numerator, and the largest denominator.
pub const LIMIT: i64 = 0x7fff_ffff_ffff_ffff;

/// The real number `n / d`.
pub open spec fn ratio(n: int, d: int) -> real {
    n as real / d as real
}

/// Whether `n / d` is a fraction that a scalar can hold.
pub open spec fn in_range(n: int, d: int) -> bool {
    0 < d <= LIMIT && -LIMIT <= n <= LIMIT
}

/// Whether some fraction that a scalar can hold has the value `x`.
pub open spec fn representable(x: real) -> bool {
    exists|n: int, d: int| in_range(n, d) && #[trigger] ratio(n, d) == x
}

/// The value `x` as a scalar holds it: itself, or nothing where no fraction fits.
pub open spec fn exact(x: real) -> Option<real> {
    if representable(x) {
        Some(x)
    } else {
        None
    }
}

/// The sum of two scalar values.
pub open spec fn sum_of(a: Option<real>, b: Option<real>) -> Option<real> {
    match (a, b) {
        (Some(x), Some(y)) => exact(x + y),
        _ => None,
    }
}

/// The product of two scalar values.
pub open spec fn product_of(a: Option<real>, b: Option<real>) -> Option<real> {
    match (a, b) {
        (Some(x), Some(y)) => exact(x * y),
        _ => None,
    }
}

/// The difference of two scalar values.
pub open spec fn difference_of(a: Option<real>, b: Option<real>) -> Option<real> {
    match (a, b) {
        (Some(x), Some(y)) => exact(x - y),
        _ => None,
    }
}

/// The quotient of two scalar values; nothing where the divisor is zero.
pub open spec fn quotient_of(a: Option<real>, b: Option<real>) -> Option<real> {
    match (a, b) {
        (Some(x), Some(y)) => if y == 0 as real {
            None
        } else {
            exact(x / y)
        },
        _ => None,
    }
}

/// The scalar value with its sign changed.
pub open spec fn negative_of(a: Option<real>) -> Option<real> {
    match a {
        Some(x) => exact(-x),
        None => None,
    }
}

/// The power `a^e`, as `e` multiplications starting from 1. The power with
/// exponent 0 is 1 whatever the base.
pub open spec fn power_of(a: Option<real>, e: nat) -> Option<real>
    decreases e,
{
    if e == 0 {
        Some(1 as real)
    } else {
        product_of(power_of(a, (e - 1) as nat), a)
    }
}

/// The largest integer that is not above the scalar value.
pub open spec fn floor_of(a: Option<real>) -> Option<int> {
    match a {
        Some(x) => Some(x.floor()),
        None => None,
    }
}

/// What is left of a scalar value above its floor: a value from 0 up to, not
/// including, 1.
pub open spec fn fraction_of(a: Option<real>) -> Option<real> {
    match a {
        Some(x) => exact(x - x.floor() as real),
        None => None,
    }
}

/// Whether `s` is the square root of `x` and a value that a scalar can hold.
pub open spec fn is_root(s: real, x: real) -> bool {
    s >= 0 as real && s * s == x && representable(s)
}

/// The square root of a scalar value: the number that is not negative and whose
/// square is the value, where a scalar can hold that number, and nothing otherwise,
/// as for 2 and for every negative value.
pub open spec fn root_of(a: Option<real>) -> Option<real> {
    match a {
        Some(x) => if exists|s: real| is_root(s, x) {
            Some(choose|s: real| is_root(s, x))
        } else {
            None
        },
        None => None,
    }
}

/// A fraction of machine integers, or *undefined*.
#[derive(Clone, Copy, Debug)]
pub struct Scalar {
    num: i64,
    den: i64,
}

impl View for Scalar {
    type V = Option<real>;

    /// The value held: the real number `num / den`, or nothing when undefined.
    closed spec fn view(&self) -> Option<real> {
        if self.den > 0 {
            Some(ratio(self.num as int, self.den as int))
        } else {
            None
        }
    }
}

/// Two fractions with positive denominators have the same value exactly when they
/// agree after cross-multiplication.
pub proof fn lemma_ratio_equal(n: int, d: int, m: int, e: int)
    requires
        d > 0,
        e > 0,
    ensures
        ratio(n, d) == ratio(m, e) <==> n * e == m * d,
{
    assert(ratio(n, d) == ratio(m, e) <==> n * e == m * d) by (nonlinear_arith)
        requires
            d > 0,
            e > 0,
    ;
}

/// The real power `x^e`.
pub open spec fn power_real(x: real, e: nat) -> real
    decreases e,
{
    if e == 0 {
        1 as real
    } else {
        power_real(x, (e - 1) as nat) * x
    }
}

/// A power that is defined is the real power.
pub proof fn lemma_power_defined(a: Option<real>, e: nat)
    requires
        power_of(a, e) is Some,
        a is Some,
    ensures
        power_of(a, e) == Some(power_real(a.unwrap(), e)),
    decreases e,
{
    if e > 0 {
        lemma_power_defined(a, (e - 1) as nat);
    }
}

/// A fraction within the machine's range is held as it is.
pub proof fn lemma_exact_in_range(n: int, d: int)
    requires
        in_range(n, d),
    ensures
        exact(ratio(n, d)) == Some(ratio(n, d)),
{
    assert(in_range(n, d) && ratio(n, d) == ratio(n, d));
}

/// An integer of magnitude up to `LIMIT` is held as it is.
pub proof fn lemma_exact_integer(n: int)
    requires
        -LIMIT <= n <= LIMIT,
    ensures
        exact(n as real) == Some(n as real),
{
    lemma_ratio_of_integer(n);
    lemma_exact_in_range(n, 1);
}

/// The sum of two fractions is defined where the fraction formed on the product
/// of the denominators can be held.
pub proof fn lemma_sum_of_ratios(a: int, b: int, c: int, d: int)
    requires
        b > 0,
        d > 0,
        in_range(a * d + c * b, b * d),
    ensures
        sum_of(Some(ratio(a, b)), Some(ratio(c, d))) == Some(ratio(a * d + c * b, b * d)),
{
    assert(ratio(a, b) + ratio(c, d) == ratio(a * d + c * b, b * d)) by (nonlinear_arith)
        requires
            b > 0,
            d > 0,
    ;
    lemma_exact_in_range(a * d + c * b, b * d);
}

/// The product of two fractions is defined where the fraction of the products can
/// be held.
pub proof fn lemma_product_of_ratios(a: int, b: int, c: int, d: int)
    requires
        b > 0,
        d > 0,
        in_range(a * c, b * d),
    ensures
        product_of(Some(ratio(a, b)), Some(ratio(c, d))) == Some(ratio(a * c, b * d)),
{
    assert(ratio(a, b) * ratio(c, d) == ratio(a * c, b * d)) by (nonlinear_arith)
        requires
            b > 0,
            d > 0,
    ;
    lemma_exact_in_range(a * c, b * d);
}

/// The quotient of two fractions, the second of them positive, is defined where
/// the fraction of the cross products can be held.
pub proof fn lemma_quotient_of_ratios(a: int, b: int, c: int, d: int)
    requires
        b > 0,
        d > 0,
        c > 0,
        in_range(a * d, b * c),
    ensures
        quotient_of(Some(ratio(a, b)), Some(ratio(c, d))) == Some(ratio(a * d, b * c)),
{
    assert(ratio(c, d) != 0 as real && ratio(a, b) / ratio(c, d) == ratio(a * d, b * c))
        by (nonlinear_arith)
        requires
            b > 0,
            d > 0,
            c > 0,
    ;
    lemma_exact_in_range(a * d, b * c);
}

/// The sum of two integers is defined where its magnitude is up to `LIMIT`.
pub proof fn lemma_sum_of_integers(a: int, b: int)
    requires
        -LIMIT <= a + b <= LIMIT,
    ensures
        sum_of(Some(a as real), Some(b as real)) == Some((a + b) as real),
{
    lemma_exact_integer(a + b);
}

/// The product of two integers is defined where its magnitude is up to `LIMIT`.
pub proof fn lemma_product_of_integers(a: int, b: int)
    requires
        -LIMIT <= a * b <= LIMIT,
    ensures
        product_of(Some(a as real), Some(b as real)) == Some((a * b) as real),
{
    assert(a as real * b as real == (a * b) as real) by (nonlinear_arith);
    lemma_exact_integer(a * b);
}

/// The floor of a fraction with a positive denominator is the quotient of the
/// integer division that rounds down.
pub proof fn lemma_ratio_floor(n: int, d: int, q: int, r: int)
    requires
        d > 0,
        n == q * d + r,
        0 <= r < d,
    ensures
        ratio(n, d).floor() == q,
        ratio(n, d) - q as real == ratio(r, d),
{
    assert(q as real <= ratio(n, d) < (q + 1) as real && ratio(n, d) - q as real == ratio(r, d))
        by (nonlinear_arith)
        requires
            d > 0,
            n == q * d + r,
            0 <= r < d,
    ;
}

/// Changing the sign of both parts of a fraction leaves its value.
pub proof fn lemma_ratio_negated(n: int, d: int)
    requires
        d != 0,
    ensures
        ratio(-n, -d) == ratio(n, d),
{
    assert(ratio(-n, -d) == ratio(n, d)) by (nonlinear_arith)
        requires
            d != 0,
    ;
}

/// A fraction with denominator 1 is its numerator.
pub proof fn lemma_ratio_of_integer(n: int)
    ensures
        ratio(n, 1) == n as real,
{
    assert(ratio(n, 1) == n as real) by (nonlinear_arith);
}

/// The square root of zero is zero.
pub proof fn lemma_root_of_zero()
    ensures
        root_of(Some(0 as real)) == Some(0 as real),
{
    let z = 0 as real;
    lemma_exact_integer(0);
    assert(z * z == z) by (nonlinear_arith)
        requires
            z == 0 as real,
    ;
    assert(is_root(z, z));
    let chosen = choose|t: real| is_root(t, z);
    lemma_root_unique(z, chosen);
}

/// Two numbers that are not negative and have the same square are the same.
pub proof fn lemma_root_unique(s: real, t: real)
    requires
        s >= 0 as real,
        t >= 0 as real,
        s * s == t * t,
    ensures
        s == t,
{
    assert((s - t) * (s + t) == s * s - t * t) by (nonlinear_arith);
    assert(s == t) by (nonlinear_arith)
        requires
            (s - t) * (s + t) == 0 as real,
            s >= 0 as real,
            t >= 0 as real,
    ;
}

/// The square of a fraction is the fraction of the squares.
pub proof fn lemma_ratio_square(m: int, e: int)
    requires
        e != 0,
    ensures
        ratio(m, e) * ratio(m, e) == ratio(m * m, e * e),
        e * e > 0,
{
    assert(ratio(m, e) * ratio(m, e) == ratio(m * m, e * e) && e * e > 0) by (nonlinear_arith)
        requires
            e != 0,
    ;
}

/// The largest integer whose square is not above `n`.
pub fn integer_root(n: u64) -> (r: u64)
    ensures
        r * r <= n < (r + 1) * (r + 1),
{
    let mut low: u64 = 0;
    let mut high: u64 = 0x1_0000_0000;
    while high - low > 1
        invariant
            low < high <= 0x1_0000_0000,
            low * low <= n < high * high,
        decreases high - low,
    {
        let middle: u64 = low + (high - low) / 2;
        assert(middle * middle <= 0x1_0000_0000 * 0x1_0000_0000) by (nonlinear_arith)
            requires
                middle <= 0x1_0000_0000,
        ;
        if (middle as u128) * (middle as u128) <= n as u128 {
            low = middle;
        } else {
            high = middle;
        }
    }
    low
}

/// A fraction in lowest terms whose root is a fraction has a square numerator and
/// a square denominator, which their integer roots then show.
proof fn lemma_no_root(n: int, d: int, root_n: int, root_d: int, s: real)
    requires
        n >= 0,
        d > 0,
        coprime(n, d),
        0 <= root_n,
        0 <= root_d,
        root_n * root_n <= n < (root_n + 1) * (root_n + 1),
        root_d * root_d <= d < (root_d + 1) * (root_d + 1),
        is_root(s, ratio(n, d)),
    ensures
        root_n * root_n == n,
        root_d * root_d == d,
{
    let (m0, e0) = choose|m: int, e: int| in_range(m, e) && #[trigger] ratio(m, e) == s;
    assert(m0 >= 0) by (nonlinear_arith)
        requires
            ratio(m0, e0) >= 0 as real,
            e0 > 0,
    ;
    let (m, e) = lemma_lowest_terms_exist(m0, e0);
    lemma_ratio_equal(m0, e0, m, e);
    lemma_ratio_square(m, e);
    lemma_coprime_squares(m, e);
    lemma_ratio_equal(m * m, e * e, n, d);
    lemma_lowest_terms_unique(n, d, m * m, e * e);
    assert(root_n == m) by (nonlinear_arith)
        requires
            root_n * root_n <= n < (root_n + 1) * (root_n + 1),
            n == m * m,
            m >= 0,
            root_n >= 0,
    ;
    assert(e > 0);
    assert(root_d == e) by (nonlinear_arith)
        requires
            root_d * root_d <= d < (root_d + 1) * (root_d + 1),
            d == e * e,
            e > 0,
            root_d >= 0,
    ;
}

/// The product of two 64-bit integers, which always fits in 128 bits.
fn wide_product(a: i64, b: i64) -> (p: i128)
    ensures
        p == a * b,
        -0x4000_0000_0000_0000_0000_0000_0000_0000 <= p <= 0x4000_0000_0000_0000_0000_0000_0000_0000,
        (b > 0 ==> -0x3fff_ffff_ffff_ffff_8000_0000_0000_0000 <= p
            <= 0x3fff_ffff_ffff_ffff_8000_0000_0000_0000),
{
    assert(-0x4000_0000_0000_0000_0000_0000_0000_0000 <= a * b
        <= 0x4000_0000_0000_0000_0000_0000_0000_0000) by (nonlinear_arith)
        requires
            -0x8000_0000_0000_0000 <= a <= 0x7fff_ffff_ffff_ffff,
            -0x8000_0000_0000_0000 <= b <= 0x7fff_ffff_ffff_ffff,
    ;
    assert(b > 0 ==> -0x3fff_ffff_ffff_ffff_8000_0000_0000_0000 <= a * b
        <= 0x3fff_ffff_ffff_ffff_8000_0000_0000_0000) by (nonlinear_arith)
        requires
            -0x8000_0000_0000_0000 <= a <= 0x7fff_ffff_ffff_ffff,
            -0x8000_0000_0000_0000 <= b <= 0x7fff_ffff_ffff_ffff,
    ;
    (a as i128) * (b as i128)
}

/// The fraction `n / d` in lowest terms.
fn reduce(n: u128, d: u128) -> (r: (u128, u128))
    requires
        d > 0,
    ensures
        r.1 > 0,
        n * r.1 == r.0 * d,
        coprime(r.0 as int, r.1 as int),
        r.0 <= n,
        r.1 <= d,
{
    let g = greatest_common_divisor(n, d);
    proof {
        lemma_gcd_positive(n as nat, d as nat);
    }
    let n1: u128 = n / g;
    let d1: u128 = d / g;
    proof {
        let (kn, kd) = lemma_gcd_cofactors(n as nat, d as nat);
        assert(n1 == kn && d1 == kd) by (nonlinear_arith)
            requires
                n == kn * g,
                d == kd * g,
                g > 0,
                n1 == n / g,
                d1 == d / g,
        ;
        lemma_cofactors_coprime(n as nat, d as nat, kn, kd);
        assert(d1 > 0 && n1 <= n && d1 <= d && n * d1 == n1 * d) by (nonlinear_arith)
            requires
                n == n1 * g,
                d == d1 * g,
                d > 0,
                g > 0,
        ;
    }
    (n1, d1)
}

/// The scalar for `sign * n / d`, where `sign` is -1 if `negative` and 1 otherwise.
fn from_parts(negative: bool, n: u128, d: u128) -> (r: Scalar)
    requires
        d > 0,
    ensures
        r@ == exact(ratio(if negative { -(n as int) } else { n as int }, d as int)),
{
    let (n1, d1) = reduce(n, d);
    let ghost signed_n: int = if negative { -(n as int) } else { n as int };
    let ghost signed_n1: int = if negative { -(n1 as int) } else { n1 as int };
    proof {
        assert(signed_n * d1 == signed_n1 * d) by (nonlinear_arith)
            requires
                n * d1 == n1 * d,
                signed_n == if negative { -(n as int) } else { n as int },
                signed_n1 == if negative { -(n1 as int) } else { n1 as int },
        ;
        lemma_ratio_equal(signed_n, d as int, signed_n1, d1 as int);
        if negative {
            lemma_coprime_negate(n1 as int, d1 as int);
        }
    }
    if n1 <= LIMIT as u128 && d1 <= LIMIT as u128 {
        let num: i64 = if negative { -(n1 as i64) } else { n1 as i64 };
        proof {
            assert(in_range(signed_n1, d1 as int) && ratio(signed_n1, d1 as int) == ratio(
                signed_n,
                d as int,
            ));
        }
        Scalar { num, den: d1 as i64 }
    } else {
        proof {
            let x = ratio(signed_n, d as int);
            assert forall|m: int, e: int| in_range(m, e) implies #[trigger] ratio(m, e) != x by {
                if ratio(m, e) == x {
                    lemma_ratio_equal(m, e, signed_n1, d1 as int);
                    lemma_lowest_terms_least(signed_n1, d1 as int, m, e);
                }
            }
        }
        Scalar { num: 0, den: 0 }
    }
}

/// The scalar for `n / d`.
fn from_fraction(n: i128, d: i128) -> (r: Scalar)
    requires
        d > 0,
        n > i128::MIN,
    ensures
        r@ == exact(ratio(n as int, d as int)),
{
    if n < 0 {
        from_parts(true, (-n) as u128, d as u128)
    } else {
        from_parts(false, n as u128, d as u128)
    }
}

impl Scalar {
    /// The marker for a value that no fraction of machine integers has.
    pub fn undefined() -> (r: Scalar)
        ensures
            r@ is None,
    {
        Scalar { num: 0, den: 0 }
    }

    /// The fraction `num / den`; undefined when `den` is zero or the fraction, in
    /// lowest terms and with a positive denominator, has a part beyond `LIMIT`.
    pub fn new(num: i64, den: i64) -> (r: Scalar)
        ensures
            r@ == if den == 0 {
                None
            } else {
                exact(ratio(num as int, den as int))
            },
    {
        if den == 0 {
            return Scalar::undefined();
        }
        if den < 0 {
            proof {
                lemma_ratio_negated(num as int, den as int);
            }
            from_fraction(-(num as i128), -(den as i128))
        } else {
            from_fraction(num as i128, den as i128)
        }
    }

    /// The scalar for an integer: undefined only for the one integer below `-LIMIT`.
    pub fn from_int(n: i64) -> (r: Scalar)
        ensures
            r@ == exact(n as real),
            -LIMIT <= n ==> r@ == Some(n as real),
    {
        proof {
            lemma_ratio_of_integer(n as int);
            if -LIMIT <= n {
                lemma_exact_integer(n as int);
            }
        }
        from_fraction(n as i128, 1)
    }

    /// The scalar for an unsigned integer: undefined above `LIMIT`.
    pub fn from_u128(n: u128) -> (r: Scalar)
        ensures
            r@ == exact(n as real),
            n <= LIMIT ==> r@ == Some(n as real),
    {
        proof {
            lemma_ratio_of_integer(n as int);
            if n <= LIMIT {
                lemma_exact_integer(n as int);
            }
        }
        from_parts(false, n, 1)
    }

    /// The scalar for a count or an index.
    pub fn from_usize(n: usize) -> (r: Scalar)
        ensures
            r@ == exact(n as real),
            n <= LIMIT ==> r@ == Some(n as real),
    {
        Scalar::from_u128(n as u128)
    }

    /// The scalar 0.
    pub fn zero() -> (r: Scalar)
        ensures
            r@ == Some(0 as real),
    {
        Scalar::from_int(0)
    }

    /// The scalar 1.
    pub fn one() -> (r: Scalar)
        ensures
            r@ == Some(1 as real),
    {
        Scalar::from_int(1)
    }

    /// Whether the scalar holds a value.
    pub fn is_defined(&self) -> (b: bool)
        ensures
            b == (self@ is Some),
    {
        self.den > 0
    }

    /// The fraction held, in lowest terms and with a positive denominator, or
    /// nothing when the scalar is undefined.
    pub fn parts(&self) -> (r: Option<(i64, i64)>)
        ensures
            r is Some == self@ is Some,
            r matches Some((n, d)) ==> d > 0 && coprime(n as int, d as int) && self@ == Some(
                ratio(n as int, d as int),
            ),
    {
        if self.den <= 0 {
            return None;
        }
        let negative = self.num < 0;
        let wide: i128 = self.num as i128;
        let m: u128 = if negative { (-wide) as u128 } else { wide as u128 };
        let (n1, d1) = reduce(m, self.den as u128);
        let n: i64 = if negative { (-(n1 as i128)) as i64 } else { n1 as i64 };
        proof {
            assert(self.num * d1 == n * self.den) by (nonlinear_arith)
                requires
                    m * d1 == n1 * self.den,
                    m == if negative { -(self.num as int) } else { self.num as int },
                    n == if negative { -(n1 as int) } else { n1 as int },
            ;
            lemma_ratio_equal(self.num as int, self.den as int, n as int, d1 as int);
            if negative {
                lemma_coprime_negate(n1 as int, d1 as int);
            }
        }
        Some((n, d1 as i64))
    }

    /// The sum; undefined when an operand is, or when no fraction holds the sum.
    pub fn add(self, rhs: Scalar) -> (r: Scalar)
        ensures
            r@ == sum_of(self@, rhs@),
    {
        if self.den <= 0 || rhs.den <= 0 {
            return Scalar::undefined();
        }
        let n: i128 = wide_product(self.num, rhs.den) + wide_product(rhs.num, self.den);
        let d: i128 = wide_product(self.den, rhs.den);
        proof {
            assert(d > 0) by (nonlinear_arith)
                requires
                    d == self.den * rhs.den,
                    self.den > 0,
                    rhs.den > 0,
            ;
            assert(ratio(self.num as int, self.den as int) + ratio(rhs.num as int, rhs.den as int)
                == ratio(n as int, d as int)) by (nonlinear_arith)
                requires
                    n == self.num * rhs.den + rhs.num * self.den,
                    d == self.den * rhs.den,
                    self.den > 0,
                    rhs.den > 0,
            ;
        }
        from_fraction(n, d)
    }

    /// The difference; undefined when an operand is, or when no fraction holds it.
    pub fn sub(self, rhs: Scalar) -> (r: Scalar)
        ensures
            r@ == difference_of(self@, rhs@),
    {
        if self.den <= 0 || rhs.den <= 0 {
            return Scalar::undefined();
        }
        let n: i128 = wide_product(self.num, rhs.den) - wide_product(rhs.num, self.den);
        let d: i128 = wide_product(self.den, rhs.den);
        proof {
            assert(d > 0) by (nonlinear_arith)
                requires
                    d == self.den * rhs.den,
                    self.den > 0,
                    rhs.den > 0,
            ;
            assert(ratio(self.num as int, self.den as int) - ratio(rhs.num as int, rhs.den as int)
                == ratio(n as int, d as int)) by (nonlinear_arith)
                requires
                    n == self.num * rhs.den - rhs.num * self.den,
                    d == self.den * rhs.den,
                    self.den > 0,
                    rhs.den > 0,
            ;
        }
        from_fraction(n, d)
    }

    /// The product; undefined when an operand is, or when no fraction holds it.
    pub fn mul(self, rhs: Scalar) -> (r: Scalar)
        ensures
            r@ == product_of(self@, rhs@),
    {
        if self.den <= 0 || rhs.den <= 0 {
            return Scalar::undefined();
        }
        let n: i128 = wide_product(self.num, rhs.num);
        let d: i128 = wide_product(self.den, rhs.den);
        proof {
            assert(d > 0) by (nonlinear_arith)
                requires
                    d == self.den * rhs.den,
                    self.den > 0,
                    rhs.den > 0,
            ;
            assert(ratio(self.num as int, self.den as int) * ratio(rhs.num as int, rhs.den as int)
                == ratio(n as int, d as int)) by (nonlinear_arith)
                requires
                    n == self.num * rhs.num,
                    d == self.den * rhs.den,
                    self.den > 0,
                    rhs.den > 0,
            ;
        }
        from_fraction(n, d)
    }

    /// The quotient; undefined when an operand is, when `rhs` is zero, or when no
    /// fraction holds it.
    pub fn div(self, rhs: Scalar) -> (r: Scalar)
        ensures
            r@ == quotient_of(self@, rhs@),
    {
        if self.den <= 0 || rhs.den <= 0 {
            return Scalar::undefined();
        }
        proof {
            assert(ratio(rhs.num as int, rhs.den as int) == 0 as real <==> rhs.num == 0)
                by (nonlinear_arith)
                requires
                    rhs.den > 0,
            ;
        }
        if rhs.num == 0 {
            return Scalar::undefined();
        }
        let n: i128 = wide_product(self.num, rhs.den);
        let d: i128 = wide_product(rhs.num, self.den);
        proof {
            assert(d != 0) by (nonlinear_arith)
                requires
                    d == rhs.num * self.den,
                    self.den > 0,
                    rhs.num != 0,
            ;
            assert(ratio(self.num as int, self.den as int) / ratio(rhs.num as int, rhs.den as int)
                == ratio(n as int, d as int)) by (nonlinear_arith)
                requires
                    n == self.num * rhs.den,
                    d == rhs.num * self.den,
                    self.den > 0,
                    rhs.den > 0,
                    rhs.num != 0,
            ;
        }
        if d < 0 {
            proof {
                lemma_ratio_negated(n as int, d as int);
            }
            from_fraction(-n, -d)
        } else {
            from_fraction(n, d)
        }
    }

    /// The scalar with its sign changed; undefined when the operand is.
    pub fn neg(self) -> (r: Scalar)
        ensures
            r@ == negative_of(self@),
    {
        if self.den <= 0 {
            return Scalar::undefined();
        }
        proof {
            assert(-ratio(self.num as int, self.den as int) == ratio(-(self.num as int), self.den as int))
                by (nonlinear_arith)
                requires
                    self.den > 0,
            ;
        }
        from_fraction(-(self.num as i128), self.den as i128)
    }

    /// The power with a natural exponent, by repeated multiplication.
    pub fn powi(self, exponent: usize) -> (r: Scalar)
        ensures
            r@ == power_of(self@, exponent as nat),
    {
        let mut result = Scalar::one();
        let mut done: usize = 0;
        while done < exponent
            invariant
                done <= exponent,
                result@ == power_of(self@, done as nat),
            decreases exponent - done,
        {
            result = result.mul(self);
            done = done + 1;
        }
        result
    }

    /// The square root, where it is a fraction that a scalar can hold; undefined
    /// otherwise, and when the operand is undefined or negative.
    pub fn sqrt(self) -> (r: Scalar)
        ensures
            r@ == root_of(self@),
    {
        let (n, d) = match self.parts() {
            None => {
                return Scalar::undefined();
            },
            Some(pair) => pair,
        };
        let ghost x = ratio(n as int, d as int);
        if n < 0 {
            proof {
                assert(x < 0 as real) by (nonlinear_arith)
                    requires
                        x == ratio(n as int, d as int),
                        n < 0,
                        d > 0,
                ;
                assert forall|s: real| !is_root(s, x) by {
                    assert(s * s >= 0 as real) by (nonlinear_arith);
                }
            }
            return Scalar::undefined();
        }
        let root_n = integer_root(n as u64);
        let root_d = integer_root(d as u64);
        let exact_n = (root_n as u128) * (root_n as u128) == n as u128;
        let exact_d = (root_d as u128) * (root_d as u128) == d as u128;
        if exact_n && exact_d {
            proof {
                assert(root_d > 0 && root_n <= n && root_d <= d) by (nonlinear_arith)
                    requires
                        root_d * root_d == d,
                        root_n * root_n == n,
                        d > 0,
                        n >= 0,
                        root_n >= 0,
                        root_d >= 0,
                ;
                let s = ratio(root_n as int, root_d as int);
                lemma_ratio_square(root_n as int, root_d as int);
                assert(s >= 0 as real) by (nonlinear_arith)
                    requires
                        s == ratio(root_n as int, root_d as int),
                        root_n >= 0,
                        root_d > 0,
                ;
                assert(in_range(root_n as int, root_d as int) && ratio(
                    root_n as int,
                    root_d as int,
                ) == s);
                assert(is_root(s, x));
                let chosen = choose|t: real| is_root(t, x);
                lemma_root_unique(s, chosen);
            }
            Scalar { num: root_n as i64, den: root_d as i64 }
        } else {
            proof {
                assert forall|s: real| !is_root(s, x) by {
                    if is_root(s, x) {
                        lemma_no_root(n as int, d as int, root_n as int, root_d as int, s);
                    }
                }
            }
            Scalar::undefined()
        }
    }

    /// The largest integer not above the scalar, or nothing when it is undefined.
    pub fn floor(self) -> (r: Option<i64>)
        ensures
            r is Some == self@ is Some,
            r is Some ==> floor_of(self@) == Some(r.unwrap() as int),
    {
        if self.den <= 0 {
            return None;
        }
        let (q, _) = self.floor_and_rest();
        Some(q)
    }

    /// What is left of the scalar above its floor; undefined when the scalar is.
    pub fn fract(self) -> (r: Scalar)
        ensures
            r@ == fraction_of(self@),
    {
        if self.den <= 0 {
            return Scalar::undefined();
        }
        let (_, rest) = self.floor_and_rest();
        from_fraction(rest as i128, self.den as i128)
    }

    /// Division of the numerator by the denominator, rounding down.
    fn floor_and_rest(self) -> (qr: (i64, i64))
        requires
            self.den > 0,
        ensures
            self.num == qr.0 * self.den + qr.1,
            0 <= qr.1 < self.den,
            ratio(self.num as int, self.den as int).floor() == qr.0,
            ratio(self.num as int, self.den as int) - qr.0 as real == ratio(
                qr.1 as int,
                self.den as int,
            ),
    {
        let n: i128 = self.num as i128;
        let d: i128 = self.den as i128;
        let q: i128;
        let r: i128;
        if n >= 0 {
            q = n / d;
            r = n % d;
            proof {
                assert(n == q * d + r && 0 <= r < d && 0 <= q <= n) by (nonlinear_arith)
                    requires
                        q == n / d,
                        r == n % d,
                        d > 0,
                        n >= 0,
                ;
            }
        } else {
            let m: i128 = -n;
            let w: i128 = m + d - 1;
            let up: i128 = w / d;
            proof {
                let rem = w % d;
                assert(w == up * d + rem && 0 <= rem < d && 0 <= up <= m) by (nonlinear_arith)
                    requires
                        up == w / d,
                        rem == w % d,
                        w == m + d - 1,
                        d > 0,
                        m > 0,
                ;
            }
            q = -up;
            r = up * d - m;
            proof {
                assert(n == q * d + r) by (nonlinear_arith)
                    requires
                        q == -up,
                        r == up * d - m,
                        m == -n,
                ;
            }
        }
        proof {
            lemma_ratio_floor(n as int, d as int, q as int, r as int);
        }
        (q as i64, r as i64)
    }
}

impl PartialEq for Scalar {
    /// Two scalars are equal when both are undefined or both hold the same value,
    /// in whatever fractions.
    fn eq(&self, other: &Scalar) -> (b: bool) {
        if self.den <= 0 || other.den <= 0 {
            return self.den <= 0 && other.den <= 0;
        }
        proof {
            lemma_ratio_equal(self.num as int, self.den as int, other.num as int, other.den as int);
        }
        wide_product(self.num, other.den) == wide_product(other.num, self.den)
    }
}

impl Eq for Scalar {

}

impl PartialEqSpecImpl for Scalar {
    open spec fn obeys_eq_spec() -> bool {
        true
    }

    open spec fn eq_spec(&self, other: &Scalar) -> bool {
        self@ == other@
    }
}

} // verus!
