//! Vectors of a fixed dimension over exact scalars.
use vstd::prelude::*;
use crate::scalar::{
    is_root, lemma_exact_integer, lemma_root_of_zero, product_of, quotient_of, root_of, sum_of,
    Scalar,
};

verus! {

/// The componentwise sums of two sequences of scalar values.
pub open spec fn sums(a: Seq<Option<real>>, b: Seq<Option<real>>) -> Seq<Option<real>> {
    Seq::new(a.len(), |i: int| sum_of(a[i], b[i]))
}

/// The componentwise products of two sequences of scalar values.
pub open spec fn products(a: Seq<Option<real>>, b: Seq<Option<real>>) -> Seq<Option<real>> {
    Seq::new(a.len(), |i: int| product_of(a[i], b[i]))
}

/// The sequence with the scalar value `s` added to every component.
pub open spec fn shifted(a: Seq<Option<real>>, s: Option<real>) -> Seq<Option<real>> {
    Seq::new(a.len(), |i: int| sum_of(s, a[i]))
}

/// The sequence with every component multiplied by the scalar value `s`.
pub open spec fn scaled(a: Seq<Option<real>>, s: Option<real>) -> Seq<Option<real>> {
    Seq::new(a.len(), |i: int| product_of(s, a[i]))
}

/// The sequence of `len` zeros.
pub open spec fn zeros(len: nat) -> Seq<Option<real>> {
    Seq::new(len, |i: int| Some(0 as real))
}

/// The sequence with every component divided by the scalar value `s`.
pub open spec fn divided(a: Seq<Option<real>>, s: Option<real>) -> Seq<Option<real>> {
    Seq::new(a.len(), |i: int| quotient_of(a[i], s))
}

/// The sum of the squares of the first `terms` components, added up in order
/// from 0.
pub open spec fn squared_sum(a: Seq<Option<real>>, terms: nat) -> Option<real>
    decreases terms,
{
    if terms == 0 {
        Some(0 as real)
    } else {
        sum_of(squared_sum(a, (terms - 1) as nat), product_of(a[terms - 1], a[terms - 1]))
    }
}

/// The Euclidean norm: the square root of the sum of the squares of all
/// components, where a scalar can hold it.
pub open spec fn norm(a: Seq<Option<real>>) -> Option<real> {
    root_of(squared_sum(a, a.len()))
}

/// The vector scaled to length 1: every component divided by the norm. A vector
/// of norm zero has no direction and gives nothing.
pub open spec fn unit(a: Seq<Option<real>>) -> Option<Seq<Option<real>>> {
    if norm(a) == Some(0 as real) {
        None
    } else {
        Some(divided(a, norm(a)))
    }
}

/// The view of a vector that may be missing.
pub open spec fn view_of<const DIM: usize>(v: Option<Vector<DIM>>) -> Option<Seq<Option<real>>> {
    match v {
        Some(x) => Some(x@),
        None => None,
    }
}

/// The length of a vector.
pub trait VectorLength<const DIM: usize> {
    /// The length as a scalar value.
    spec fn length_value(&self) -> Option<real>;

    fn length(&self) -> (r: Scalar)
        ensures
            r@ == self.length_value(),
    ;
}

/// Scaling a vector to length 1.
pub trait VectorNormalise<const DIM: usize>: VectorLength<DIM> {
    /// The vector of length 1 with the same direction, or nothing where there is
    /// no direction.
    spec fn unit_value(&self) -> Option<Seq<Option<real>>>;

    fn normalise(&self) -> (r: Option<Vector<DIM>>)
        ensures
            view_of(r) == self.unit_value(),
    ;
}

/// A tuple of `DIM` scalars. The dimension is part of the type, so two vectors
/// that meet in an operation have the same number of components.
#[derive(Clone, Copy, Debug, PartialEq, Eq)]
pub struct Vector<const DIM: usize> {
    pub data: [Scalar; DIM],
}

impl<const DIM: usize> View for Vector<DIM> {
    type V = Seq<Option<real>>;

    /// The values of the components, in order.
    open spec fn view(&self) -> Seq<Option<real>> {
        Seq::new(DIM as nat, |i: int| self.data[i]@)
    }
}

impl<const DIM: usize> core::ops::Add<Scalar> for Vector<DIM> {
    type Output = Vector<DIM>;

    /// Adds `rhs` to every component.
    fn add(self, rhs: Scalar) -> (r: Vector<DIM>)
        ensures
            r@ == shifted(self@, rhs@),
    {
        let mut data: [Scalar; DIM] = [Scalar::zero(); DIM];
        let mut i: usize = 0;
        while i < DIM
            invariant
                i <= DIM,
                forall|j: int| 0 <= j < i ==> data[j]@ == sum_of(rhs@, self.data[j]@),
            decreases DIM - i,
        {
            data[i] = rhs.add(self.data[i]);
            i = i + 1;
        }
        let r = Vector { data };
        assert(r@ =~= shifted(self@, rhs@));
        r
    }
}

impl<const DIM: usize> vstd::std_specs::ops::AddSpecImpl<Scalar> for Vector<DIM> {
    /// The operator is specified through the views, by the `ensures` of `add`.
    open spec fn obeys_add_spec() -> bool {
        false
    }

    open spec fn add_req(self, rhs: Scalar) -> bool {
        true
    }

    open spec fn add_spec(self, rhs: Scalar) -> Vector<DIM> {
        self
    }
}

impl<const DIM: usize> core::ops::Mul<Scalar> for Vector<DIM> {
    type Output = Vector<DIM>;

    /// Multiplies every component by `rhs`.
    fn mul(self, rhs: Scalar) -> (r: Vector<DIM>)
        ensures
            r@ == scaled(self@, rhs@),
    {
        let mut data: [Scalar; DIM] = [Scalar::zero(); DIM];
        let mut i: usize = 0;
        while i < DIM
            invariant
                i <= DIM,
                forall|j: int| 0 <= j < i ==> data[j]@ == product_of(rhs@, self.data[j]@),
            decreases DIM - i,
        {
            data[i] = rhs.mul(self.data[i]);
            i = i + 1;
        }
        let r = Vector { data };
        assert(r@ =~= scaled(self@, rhs@));
        r
    }
}

impl<const DIM: usize> vstd::std_specs::ops::MulSpecImpl<Scalar> for Vector<DIM> {
    /// The operator is specified through the views, by the `ensures` of `mul`.
    open spec fn obeys_mul_spec() -> bool {
        false
    }

    open spec fn mul_req(self, rhs: Scalar) -> bool {
        true
    }

    open spec fn mul_spec(self, rhs: Scalar) -> Vector<DIM> {
        self
    }
}

impl<const DIM: usize> Vector<DIM> {
    /// The vector whose components are all 0.
    pub fn zero() -> (r: Vector<DIM>)
        ensures
            r@ == zeros(DIM as nat),
    {
        let zero = Scalar::zero();
        let mut data: [Scalar; DIM] = [zero; DIM];
        let mut i: usize = 0;
        while i < DIM
            invariant
                i <= DIM,
                zero@ == Some(0 as real),
                forall|j: int| 0 <= j < i ==> data[j]@ == Some(0 as real),
            decreases DIM - i,
        {
            data[i] = zero;
            i = i + 1;
        }
        let r = Vector { data };
        assert(r@ =~= zeros(DIM as nat));
        r
    }

    /// The componentwise sum of two vectors.
    pub fn add_vector(&self, rhs: &Vector<DIM>) -> (r: Vector<DIM>)
        ensures
            r@ == sums(self@, rhs@),
    {
        let mut data: [Scalar; DIM] = [Scalar::zero(); DIM];
        let mut i: usize = 0;
        while i < DIM
            invariant
                i <= DIM,
                forall|j: int| 0 <= j < i ==> data[j]@ == sum_of(self.data[j]@, rhs.data[j]@),
            decreases DIM - i,
        {
            data[i] = self.data[i].add(rhs.data[i]);
            i = i + 1;
        }
        let r = Vector { data };
        assert(r@ =~= sums(self@, rhs@));
        r
    }

    /// The componentwise product of two vectors.
    pub fn multiply_vector(&self, rhs: &Vector<DIM>) -> (r: Vector<DIM>)
        ensures
            r@ == products(self@, rhs@),
    {
        let mut data: [Scalar; DIM] = [Scalar::zero(); DIM];
        let mut i: usize = 0;
        while i < DIM
            invariant
                i <= DIM,
                forall|j: int| 0 <= j < i ==> data[j]@ == product_of(self.data[j]@, rhs.data[j]@),
            decreases DIM - i,
        {
            data[i] = self.data[i].mul(rhs.data[i]);
            i = i + 1;
        }
        let r = Vector { data };
        assert(r@ =~= products(self@, rhs@));
        r
    }
}

impl<const DIM: usize> VectorLength<DIM> for Vector<DIM> {
    open spec fn length_value(&self) -> Option<real> {
        norm(self@)
    }

    /// The Euclidean norm. It is exact: a vector whose norm is no fraction, as that
    /// of `(1, 1)`, has an undefined length.
    fn length(&self) -> (r: Scalar) {
        let mut square_sum = Scalar::zero();
        let mut i: usize = 0;
        while i < DIM
            invariant
                i <= DIM,
                square_sum@ == squared_sum(self@, i as nat),
            decreases DIM - i,
        {
            let d = self.data[i];
            square_sum = square_sum.add(d.mul(d));
            i = i + 1;
        }
        square_sum.sqrt()
    }
}

impl<const DIM: usize> VectorNormalise<DIM> for Vector<DIM> {
    open spec fn unit_value(&self) -> Option<Seq<Option<real>>> {
        unit(self@)
    }

    /// Every component divided by the length. A vector of length zero gives
    /// nothing: there is no division by zero.
    fn normalise(&self) -> (r: Option<Vector<DIM>>) {
        let length = self.length();
        if length == Scalar::zero() {
            return None;
        }
        let mut data: [Scalar; DIM] = [Scalar::zero(); DIM];
        let mut i: usize = 0;
        while i < DIM
            invariant
                i <= DIM,
                forall|j: int| 0 <= j < i ==> data[j]@ == quotient_of(self.data[j]@, length@),
            decreases DIM - i,
        {
            data[i] = self.data[i].div(length);
            i = i + 1;
        }
        let r = Vector { data };
        assert(r@ =~= divided(self@, length@));
        Some(r)
    }
}

/// The sum of squares of a vector of zeros is zero.
pub proof fn lemma_squared_sum_of_zeros(a: Seq<Option<real>>, terms: nat)
    requires
        terms <= a.len(),
        forall|i: int| 0 <= i < terms ==> a[i] == Some(0 as real),
    ensures
        squared_sum(a, terms) == Some(0 as real),
    decreases terms,
{
    if terms > 0 {
        lemma_squared_sum_of_zeros(a, (terms - 1) as nat);
        lemma_exact_integer(0);
        let z = 0 as real;
        assert(z * z == z && z + z == z) by (nonlinear_arith)
            requires
                z == 0 as real,
        ;
    }
}

/// A vector whose components are all zero cannot be normalised: the result is
/// nothing, and nothing is divided by zero.
pub proof fn lemma_zero_has_no_direction<const DIM: usize>(v: Vector<DIM>)
    requires
        forall|i: int| 0 <= i < DIM ==> v@[i] == Some(0 as real),
    ensures
        v.length_value() == Some(0 as real),
        v.unit_value() is None,
{
    lemma_squared_sum_of_zeros(v@, DIM as nat);
    lemma_root_of_zero();
}

/// The sum of the squares of the first `terms` components as a real number. It
/// says something only where those components are defined.
pub open spec fn squared_sum_real(a: Seq<Option<real>>, terms: nat) -> real
    decreases terms,
{
    if terms == 0 {
        0 as real
    } else {
        squared_sum_real(a, (terms - 1) as nat) + a[terms - 1].unwrap() * a[terms - 1].unwrap()
    }
}

/// A sum of squares that is defined is the real sum of squares, and its
/// components are defined.
pub proof fn lemma_squared_sum_defined(a: Seq<Option<real>>, terms: nat)
    requires
        squared_sum(a, terms) is Some,
    ensures
        forall|i: int| 0 <= i < terms ==> (#[trigger] a[i]) is Some,
        squared_sum(a, terms) == Some(squared_sum_real(a, terms)),
    decreases terms,
{
    if terms > 0 {
        lemma_squared_sum_defined(a, (terms - 1) as nat);
    }
}

/// Dividing every component by `l` divides the sum of squares by `l * l`.
proof fn lemma_squared_sum_divided(a: Seq<Option<real>>, u: Seq<Option<real>>, l: real, terms: nat)
    requires
        l != 0 as real,
        terms <= a.len(),
        terms <= u.len(),
        forall|i: int|
            0 <= i < terms ==> (#[trigger] a[i]) is Some && u[i] == Some(a[i].unwrap() / l),
    ensures
        squared_sum_real(u, terms) * (l * l) == squared_sum_real(a, terms),
    decreases terms,
{
    if terms == 0 {
        let z = 0 as real;
        assert(z * (l * l) == z) by (nonlinear_arith)
            requires
                z == 0 as real,
        ;
    } else {
        let j = (terms - 1) as nat;
        lemma_squared_sum_divided(a, u, l, j);
        let x = a[j as int].unwrap();
        let y = u[j as int].unwrap();
        let before = squared_sum_real(u, j);
        assert(a[j as int] is Some && u[j as int] == Some(x / l));
        assert((y * y) * (l * l) == x * x) by (nonlinear_arith)
            requires
                y == x / l,
                l != 0 as real,
        ;
        assert((before + y * y) * (l * l) == before * (l * l) + (y * y) * (l * l))
            by (nonlinear_arith);
    }
}

/// A normalised vector has length one: where normalising gives a vector whose sum
/// of squares is defined, that sum is 1.
pub proof fn lemma_unit_has_length_one(a: Seq<Option<real>>)
    requires
        unit(a) is Some,
        squared_sum(unit(a).unwrap(), a.len()) is Some,
    ensures
        squared_sum(unit(a).unwrap(), a.len()) == Some(1 as real),
{
    let u = unit(a).unwrap();
    let n = a.len();
    lemma_squared_sum_defined(u, n);
    if n == 0 {
        // an empty vector has the sum of squares 0, hence the norm 0, hence no unit
        lemma_root_of_zero();
    } else {
        assert(u[0] is Some);
        assert(u[0] == quotient_of(a[0], norm(a)));
        let l = norm(a).unwrap();
        let s = squared_sum(a, n).unwrap();
        assert(is_root(l, s));
        assert forall|i: int| 0 <= i < n implies (#[trigger] a[i]) is Some && u[i] == Some(
            a[i].unwrap() / l,
        ) by {
            assert(u[i] is Some);
            assert(u[i] == quotient_of(a[i], norm(a)));
        }
        lemma_squared_sum_defined(a, n);
        lemma_squared_sum_divided(a, u, l, n);
        let total = squared_sum_real(u, n);
        assert(total == 1 as real) by (nonlinear_arith)
            requires
                total * (l * l) == s,
                l * l == s,
                l != 0 as real,
        ;
    }
}

} // verus!
