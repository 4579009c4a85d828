use splines::scalar::Scalar;
use splines::vector::{Vector, VectorLength, VectorNormalise};

fn v2(x: i64, y: i64) -> Vector<2> {
    Vector { data: [Scalar::from_int(x), Scalar::from_int(y)] }
}

fn v3(x: i64, y: i64, z: i64) -> Vector<3> {
    Vector { data: [Scalar::from_int(x), Scalar::from_int(y), Scalar::from_int(z)] }
}

#[test]
fn vector_plus_scalar() {
    let v: Vector<2> = Vector { data: [Scalar::from_int(1), Scalar::new(1, 2)] };
    let w = v + Scalar::from_int(2);
    assert_eq!(w, Vector { data: [Scalar::from_int(3), Scalar::new(5, 2)] });
}

#[test]
fn vector_times_scalar() {
    let v: Vector<3> = Vector { data: [Scalar::from_int(1), Scalar::new(1, 2), Scalar::zero()] };
    let w = v * Scalar::new(2, 3);
    assert_eq!(w, Vector { data: [Scalar::new(2, 3), Scalar::new(1, 3), Scalar::zero()] });
    assert_eq!(v * Scalar::from_int(-1), Vector {
        data: [Scalar::from_int(-1), Scalar::new(-1, 2), Scalar::zero()],
    });
}

#[test]
fn vector_sum_and_product_by_components() {
    let a = v3(1, 2, 3);
    let b = v3(10, -20, 30);
    assert_eq!(a.add_vector(&b), v3(11, -18, 33));
    assert_eq!(a.multiply_vector(&b), v3(10, -40, 90));
    assert_eq!(b.add_vector(&a), a.add_vector(&b));
}

#[test]
fn vector_zero() {
    assert_eq!(Vector::<3>::zero(), v3(0, 0, 0));
    assert_eq!(v3(4, 5, 6).add_vector(&Vector::zero()), v3(4, 5, 6));
    let empty: Vector<0> = Vector::zero();
    assert_eq!(empty.length(), Scalar::zero());
}

#[test]
fn undefined_component_stays_in_its_place() {
    let a: Vector<2> = Vector { data: [Scalar::from_int(i64::MAX), Scalar::from_int(1)] };
    let b = a.add_vector(&v2(1, 1));
    assert!(!b.data[0].is_defined());
    assert_eq!(b.data[1], Scalar::from_int(2));
    let c = a * Scalar::from_int(2);
    assert!(!c.data[0].is_defined());
    assert_eq!(c.data[1], Scalar::from_int(2));
}

#[test]
fn vector_length_is_exact() {
    assert_eq!(v2(3, 4).length(), Scalar::from_int(5));
    assert_eq!(v2(-3, 4).length(), Scalar::from_int(5));
    assert_eq!(v3(2, 3, 6).length(), Scalar::from_int(7));
    let halves: Vector<2> = Vector { data: [Scalar::new(3, 10), Scalar::new(2, 5)] };
    assert_eq!(halves.length(), Scalar::new(1, 2));
    assert_eq!(v2(0, 0).length(), Scalar::zero());
}

#[test]
fn vector_length_without_a_fraction_is_undefined() {
    assert!(!v2(1, 1).length().is_defined());
    assert!(!v3(1, 2, 3).length().is_defined());
}

#[test]
fn normalise_gives_a_vector_of_length_one() {
    let unit = v2(3, 4).normalise().unwrap();
    assert_eq!(unit, Vector { data: [Scalar::new(3, 5), Scalar::new(4, 5)] });
    assert_eq!(unit.length(), Scalar::one());
    assert_eq!(v2(0, -7).normalise(), Some(v2(0, -1)));
}

#[test]
fn normalise_of_zero_vector_gives_nothing() {
    assert_eq!(v2(0, 0).normalise(), None);
    assert_eq!(v3(0, 0, 0).normalise(), None);
    assert_eq!(Vector::<2>::zero().normalise(), None);
}

#[test]
fn normalise_with_undefined_length_has_undefined_components() {
    let r = v2(1, 1).normalise().unwrap();
    assert!(!r.data[0].is_defined());
    assert!(!r.data[1].is_defined());
}
