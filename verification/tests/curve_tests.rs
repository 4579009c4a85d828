use splines::bezier::{BezierCurve, GenericBezierCurve};
use splines::scalar::Scalar;
use splines::vector::Vector;

fn point(x: i64, y: i64) -> Vector<2> {
    Vector { data: [Scalar::from_int(x), Scalar::from_int(y)] }
}

fn sample_polygon() -> Vec<Vector<2>> {
    vec![point(0, 0), point(2, 2), point(4, 2), point(6, 0)]
}

/// De Casteljau's construction: repeated interpolation between neighbours.
fn de_casteljau(points: &Vec<Vector<2>>, t: Scalar) -> Vector<2> {
    let mut level = points.clone();
    let rest = Scalar::one().sub(t);
    while level.len() > 1 {
        let mut next = vec![];
        for i in 0..level.len() - 1 {
            next.push((level[i] * rest).add_vector(&(level[i + 1] * t)));
        }
        level = next;
    }
    level[0]
}

#[test]
fn cubic_scenario_endpoints_and_midpoint() {
    let curve = GenericBezierCurve::new(sample_polygon());
    assert_eq!(curve.get_point_along_curve(Scalar::from_int(0)), Some(point(0, 0)));
    assert_eq!(curve.get_point_along_curve(Scalar::from_int(1)), Some(point(6, 0)));
    let middle = curve.get_point_along_curve(Scalar::new(1, 2)).unwrap();
    assert_eq!(middle, Vector { data: [Scalar::from_int(3), Scalar::new(3, 2)] });
    assert_eq!(middle, de_casteljau(&sample_polygon(), Scalar::new(1, 2)));
}

#[test]
fn cubic_scenario_coefficients() {
    let curve = GenericBezierCurve::new(sample_polygon());
    assert_eq!(curve.points, sample_polygon());
    assert_eq!(curve.coefficients, vec![point(0, 0), point(6, 6), point(0, -6), point(0, 0)]);
}

#[test]
fn cubic_scenario_tangents() {
    let curve = GenericBezierCurve::new(sample_polygon());
    assert_eq!(curve.get_tangent_along_curve(Scalar::zero()), Some(point(6, 6)));
    assert_eq!(curve.get_tangent_along_curve(Scalar::new(1, 2)), Some(point(6, 0)));
    assert_eq!(curve.get_tangent_along_curve(Scalar::one()), Some(point(6, -6)));
}

#[test]
fn cubic_starts_at_first_and_ends_at_last_control_point() {
    let polygons = vec![
        vec![point(1, -2), point(3, 5), point(-4, 7), point(10, 11)],
        vec![point(0, 0), point(0, 0), point(0, 0), point(0, 0)],
        vec![point(-100, 200), point(7, 7), point(7, 7), point(-100, 200)],
        vec![point(1_000_000_007, -1), point(-5, 999_999_937), point(12, 13), point(-14, 15)],
    ];
    for polygon in polygons {
        let curve = GenericBezierCurve::new(polygon.clone());
        assert_eq!(curve.get_point_along_curve(Scalar::zero()), Some(polygon[0]));
        assert_eq!(curve.get_point_along_curve(Scalar::one()), Some(polygon[3]));
    }
}

#[test]
fn cubic_with_rational_control_points() {
    let polygon: Vec<Vector<2>> = vec![
        Vector { data: [Scalar::new(1, 2), Scalar::new(-1, 3)] },
        Vector { data: [Scalar::new(5, 7), Scalar::new(2, 9)] },
        Vector { data: [Scalar::new(-3, 4), Scalar::new(1, 6)] },
        Vector { data: [Scalar::new(9, 10), Scalar::new(11, 12)] },
    ];
    let curve = GenericBezierCurve::new(polygon.clone());
    assert_eq!(curve.get_point_along_curve(Scalar::zero()), Some(polygon[0]));
    assert_eq!(curve.get_point_along_curve(Scalar::one()), Some(polygon[3]));
    for t in [Scalar::new(1, 3), Scalar::new(1, 2), Scalar::new(9, 10)] {
        assert_eq!(curve.get_point_along_curve(t), Some(de_casteljau(&polygon, t)));
    }
}

#[test]
fn curve_agrees_with_de_casteljau() {
    let polygon = vec![point(1, -2), point(3, 5), point(-4, 7), point(10, 11)];
    let curve = GenericBezierCurve::new(polygon.clone());
    for (n, d) in [(0, 1), (1, 4), (1, 3), (1, 2), (2, 3), (19, 20), (1, 1)] {
        let t = Scalar::new(n, d);
        assert_eq!(curve.get_point_along_curve(t), Some(de_casteljau(&polygon, t)));
    }
}

#[test]
fn curve_extrapolates_outside_the_unit_interval() {
    let curve = GenericBezierCurve::new(sample_polygon());
    // (6 t, 6 t - 6 t^2)
    assert_eq!(curve.get_point_along_curve(Scalar::from_int(2)), Some(point(12, -12)));
    assert_eq!(curve.get_point_along_curve(Scalar::from_int(-1)), Some(point(-6, -12)));
    assert_eq!(
        curve.get_point_along_curve(Scalar::from_int(2)),
        Some(de_casteljau(&sample_polygon(), Scalar::from_int(2))),
    );
}

#[test]
fn tangent_is_close_to_the_difference_quotient() {
    let polygon = vec![point(1, -2), point(3, 5), point(-4, 7), point(10, 11)];
    let curve = GenericBezierCurve::new(polygon);
    let h = Scalar::new(1, 1000);
    // the coefficients of degree two and three bound the rest: |c2| + 4 |c3| < 200
    let bound = h.mul(Scalar::from_int(200));
    for (n, d) in [(0, 1), (1, 10), (1, 4), (1, 2), (3, 4), (1, 1)] {
        let t = Scalar::new(n, d);
        let here = curve.get_point_along_curve(t).unwrap();
        let there = curve.get_point_along_curve(t.add(h)).unwrap();
        let tangent = curve.get_tangent_along_curve(t).unwrap();
        for k in 0..2 {
            let quotient = there.data[k].sub(here.data[k]).div(h);
            let error = quotient.sub(tangent.data[k]);
            assert!(error.is_defined());
            let (en, ed) = error.parts().unwrap();
            let (bn, bd) = bound.parts().unwrap();
            // |error| <= bound
            assert!((en.unsigned_abs() as u128) * (bd as u128) <= (bn as u128) * (ed as u128));
        }
    }
}

#[test]
fn difference_quotient_has_the_rest_of_second_order() {
    // the difference quotient differs from the tangent by h (c2 + (3 x + h) c3)
    let polygon = vec![point(1, -2), point(3, 5), point(-4, 7), point(10, 11)];
    let curve = GenericBezierCurve::new(polygon);
    let x = Scalar::new(1, 3);
    let h = Scalar::new(1, 8);
    let here = curve.get_point_along_curve(x).unwrap();
    let there = curve.get_point_along_curve(x.add(h)).unwrap();
    let tangent = curve.get_tangent_along_curve(x).unwrap();
    for k in 0..2 {
        let c2 = curve.coefficients[2].data[k];
        let c3 = curve.coefficients[3].data[k];
        let rest = c2.add(Scalar::from_int(3).mul(x).add(h).mul(c3));
        let quotient = there.data[k].sub(here.data[k]).div(h);
        assert_eq!(quotient.sub(tangent.data[k]), h.mul(rest));
    }
}

#[test]
fn curve_of_one_point_is_that_point() {
    let curve = GenericBezierCurve::new(vec![point(3, 4)]);
    assert_eq!(curve.get_point_along_curve(Scalar::new(1, 3)), Some(point(3, 4)));
    assert_eq!(curve.get_tangent_along_curve(Scalar::new(1, 3)), Some(point(0, 0)));
}

#[test]
fn curve_of_two_points_is_a_line() {
    let curve = GenericBezierCurve::new(vec![point(0, 10), point(4, 2)]);
    assert_eq!(curve.get_point_along_curve(Scalar::new(1, 4)), Some(point(1, 8)));
    assert_eq!(curve.get_tangent_along_curve(Scalar::new(1, 4)), Some(point(4, -8)));
}

#[test]
fn curve_without_points_has_no_coefficients() {
    let curve: GenericBezierCurve<2> = GenericBezierCurve::new(vec![]);
    assert!(curve.coefficients.is_empty());
    assert_eq!(curve.get_point_along_curve(Scalar::new(1, 2)), Some(point(0, 0)));
    assert_eq!(curve.get_tangent_along_curve(Scalar::new(1, 2)), Some(point(0, 0)));
}

#[test]
fn curve_in_three_dimensions() {
    let p = |x: i64, y: i64, z: i64| -> Vector<3> {
        Vector { data: [Scalar::from_int(x), Scalar::from_int(y), Scalar::from_int(z)] }
    };
    let curve = GenericBezierCurve::new(vec![p(0, 0, 0), p(8, 0, 0), p(8, 8, 0), p(8, 8, 8)]);
    assert_eq!(curve.get_point_along_curve(Scalar::zero()), Some(p(0, 0, 0)));
    assert_eq!(curve.get_point_along_curve(Scalar::new(1, 2)), Some(p(7, 4, 1)));
    assert_eq!(curve.get_point_along_curve(Scalar::one()), Some(p(8, 8, 8)));
}

#[test]
fn curve_that_overflows_is_undefined_where_it_does() {
    let curve = GenericBezierCurve::new(vec![
        point(i64::MAX, 1),
        point(0, 2),
        point(0, 3),
        point(0, 4),
    ]);
    let start = curve.get_point_along_curve(Scalar::zero()).unwrap();
    assert!(!start.data[0].is_defined());
    assert_eq!(start.data[1], Scalar::from_int(1));
}

#[test]
fn curve_of_the_most_control_points() {
    let mut points = vec![];
    for i in 0..35 {
        points.push(point(i, 1));
    }
    let curve = GenericBezierCurve::new(points);
    assert_eq!(curve.coefficients.len(), 35);
    assert_eq!(curve.coefficients[0], point(0, 1));
    // 34! is beyond what a scalar holds
    assert!(!curve.coefficients[1].data[0].is_defined());
    let start = curve.get_point_along_curve(Scalar::zero()).unwrap();
    assert!(!start.data[0].is_defined());
}
