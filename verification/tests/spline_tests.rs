use splines::bezier::{locate_segment, BezierCurve, GenericBezierCurve, GenericBezierSpline};
use splines::control_point::{
    AlignedControlPoint, CustomControlPoint, MirroredControlPoint,
};
use splines::scalar::Scalar;
use splines::vector::Vector;
use splines::{GenericSpline, Spline};

fn point(x: i64, y: i64) -> Vector<2> {
    Vector { data: [Scalar::from_int(x), Scalar::from_int(y)] }
}

fn numbered(count: i64) -> Vec<Vector<2>> {
    (0..count).map(|i| point(i, i * i)).collect()
}

fn seven_points() -> Vec<Vector<2>> {
    vec![
        point(0, 0),
        point(2, 2),
        point(4, 2),
        point(6, 0),
        point(8, -2),
        point(8, -4),
        point(6, -6),
    ]
}

#[test]
fn partitioned_spline_of_seven_points_has_two_segments() {
    let spline = GenericBezierSpline::cubic_from_points(&seven_points()).unwrap();
    assert_eq!(spline.curves.len(), 2);
    assert_eq!(spline.curves[0].points, seven_points()[0..4].to_vec());
    assert_eq!(spline.curves[1].points, seven_points()[3..7].to_vec());
}

#[test]
fn partitioned_spline_needs_one_more_than_a_multiple_of_three() {
    for k in 0..6usize {
        let points = numbered(3 * k as i64 + 1);
        let spline = GenericBezierSpline::cubic_from_points(&points).unwrap();
        assert_eq!(spline.curves.len(), k);
        for (i, curve) in spline.curves.iter().enumerate() {
            assert_eq!(curve.points, points[3 * i..3 * i + 4].to_vec());
        }
    }
    for count in [0, 2, 3, 5, 6, 8, 9, 11, 12] {
        assert!(GenericBezierSpline::cubic_from_points(&numbered(count)).is_none());
    }
}

#[test]
fn windowed_spline_has_three_segments_fewer_than_points() {
    for count in 4..12usize {
        let points = numbered(count as i64);
        let spline = GenericSpline::cubic_from_points(&points).unwrap();
        assert_eq!(spline.curves.len(), count - 3);
        for (i, curve) in spline.curves.iter().enumerate() {
            assert_eq!(curve.points, points[i..i + 4].to_vec());
        }
    }
}

#[test]
fn windowed_spline_of_few_points_has_no_segments() {
    for count in 0..4 {
        let spline = GenericSpline::cubic_from_points(&numbered(count)).unwrap();
        assert_eq!(spline.curves.len(), 0);
        assert_eq!(spline.get_point_along_spline(Scalar::zero()), None);
    }
}

#[test]
fn the_two_policies_differ_on_the_same_points() {
    let partitioned = GenericBezierSpline::cubic_from_points(&seven_points()).unwrap();
    let windowed = GenericSpline::cubic_from_points(&seven_points()).unwrap();
    assert_eq!(partitioned.curves.len(), 2);
    assert_eq!(windowed.curves.len(), 4);
    assert_eq!(windowed.curves[1].points, seven_points()[1..5].to_vec());
}

#[test]
fn segment_and_local_parameter() {
    let third = Scalar::new(1, 3);
    assert_eq!(locate_segment(Scalar::zero(), 3), Some((0, Scalar::zero())));
    assert_eq!(locate_segment(Scalar::new(1, 6), 3), Some((0, Scalar::new(1, 2))));
    assert_eq!(locate_segment(third, 3), Some((1, Scalar::zero())));
    assert_eq!(locate_segment(Scalar::new(1, 2), 3), Some((1, Scalar::new(1, 2))));
    assert_eq!(locate_segment(Scalar::new(19, 20), 2), Some((1, Scalar::new(9, 10))));
    assert_eq!(locate_segment(Scalar::new(99, 100), 3), Some((2, Scalar::new(97, 100))));
}

#[test]
fn parameter_one_is_the_end_of_the_last_segment() {
    assert_eq!(locate_segment(Scalar::one(), 1), Some((0, Scalar::one())));
    assert_eq!(locate_segment(Scalar::one(), 5), Some((4, Scalar::one())));
    assert_eq!(locate_segment(Scalar::new(3, 3), 5), Some((4, Scalar::one())));
}

#[test]
fn parameter_outside_the_spline_has_no_segment() {
    assert_eq!(locate_segment(Scalar::new(3, 2), 2), None);
    assert_eq!(locate_segment(Scalar::new(101, 100), 4), None);
    assert_eq!(locate_segment(Scalar::new(-1, 100), 4), None);
    assert_eq!(locate_segment(Scalar::from_int(-1), 4), None);
    assert_eq!(locate_segment(Scalar::undefined(), 4), None);
    assert_eq!(locate_segment(Scalar::zero(), 0), None);
    assert_eq!(locate_segment(Scalar::new(1, 2), 0), None);
    assert_eq!(locate_segment(Scalar::one(), 0), None);
}

#[test]
fn spline_at_one_is_last_segment_at_one() {
    let spline = GenericBezierSpline::cubic_from_points(&seven_points()).unwrap();
    let last = GenericBezierCurve::new(seven_points()[3..7].to_vec());
    assert_eq!(
        spline.get_point_along_curve(Scalar::one()),
        last.get_point_along_curve(Scalar::one()),
    );
    assert_eq!(spline.get_point_along_curve(Scalar::one()), Some(point(6, -6)));
    assert_eq!(
        spline.get_tangent_along_curve(Scalar::one()),
        last.get_tangent_along_curve(Scalar::one()),
    );
    let windowed = GenericSpline::cubic_from_points(&seven_points()).unwrap();
    assert_eq!(
        windowed.get_point_along_spline(Scalar::one()),
        last.get_point_along_curve(Scalar::one()),
    );
}

#[test]
fn spline_evaluates_the_segment_it_selects() {
    let spline = GenericBezierSpline::cubic_from_points(&seven_points()).unwrap();
    let first = GenericBezierCurve::new(seven_points()[0..4].to_vec());
    let second = GenericBezierCurve::new(seven_points()[3..7].to_vec());
    assert_eq!(spline.get_point_along_curve(Scalar::zero()), Some(point(0, 0)));
    assert_eq!(
        spline.get_point_along_curve(Scalar::new(1, 4)),
        first.get_point_along_curve(Scalar::new(1, 2)),
    );
    assert_eq!(spline.get_point_along_curve(Scalar::new(1, 4)), Some(Vector {
        data: [Scalar::from_int(3), Scalar::new(3, 2)],
    }));
    assert_eq!(spline.get_point_along_curve(Scalar::new(1, 2)), Some(point(6, 0)));
    assert_eq!(
        spline.get_point_along_curve(Scalar::new(19, 20)),
        second.get_point_along_curve(Scalar::new(9, 10)),
    );
    assert_eq!(
        spline.get_tangent_along_curve(Scalar::new(3, 4)),
        second.get_tangent_along_curve(Scalar::new(1, 2)),
    );
}

#[test]
fn spline_outside_the_unit_interval_gives_nothing() {
    let spline = GenericBezierSpline::cubic_from_points(&seven_points()).unwrap();
    assert_eq!(spline.get_point_along_curve(Scalar::new(5, 4)), None);
    assert_eq!(spline.get_point_along_curve(Scalar::new(-1, 4)), None);
    assert_eq!(spline.get_tangent_along_curve(Scalar::from_int(2)), None);
    assert_eq!(spline.get_point_along_curve(Scalar::undefined()), None);
}

#[test]
fn spline_without_segments_gives_nothing() {
    let spline = GenericBezierSpline::cubic_from_points(&vec![point(1, 1)]).unwrap();
    assert_eq!(spline.curves.len(), 0);
    assert_eq!(spline.get_point_along_curve(Scalar::zero()), None);
    assert_eq!(spline.get_point_along_curve(Scalar::one()), None);
    assert_eq!(spline.get_tangent_along_curve(Scalar::new(1, 2)), None);
    let empty: GenericSpline<2> = GenericSpline::from_curves(vec![]);
    assert_eq!(empty.get_point_along_spline(Scalar::one()), None);
}

#[test]
fn spline_from_control_points_of_all_kinds() {
    let control_points = vec![
        CustomControlPoint::new(point(0, 0), point(0, 0), point(2, 2)),
        CustomControlPoint::from_control_point(&MirroredControlPoint::new(
            point(6, 0),
            point(-2, 2),
        )),
        CustomControlPoint::from_control_point(&AlignedControlPoint::new(
            point(6, -6),
            point(1, 1),
            Scalar::from_int(2),
            Scalar::zero(),
        )),
    ];
    let from_control = GenericBezierSpline::cubic_from_control_points(&control_points);
    let from_points = GenericBezierSpline::cubic_from_points(&seven_points()).unwrap();
    assert_eq!(from_control.curves.len(), 2);
    assert_eq!(from_control.curves[0].points, from_points.curves[0].points);
    assert_eq!(from_control.curves[1].points, from_points.curves[1].points);
    let t = Scalar::new(19, 20);
    assert_eq!(from_control.get_point_along_curve(t), from_points.get_point_along_curve(t));
}

#[test]
fn spline_from_mirrored_control_points() {
    let control_points = vec![
        MirroredControlPoint::new(point(0, 0), point(-1, -1)),
        MirroredControlPoint::new(point(10, 0), point(-1, 1)),
        MirroredControlPoint::new(point(20, 0), point(-1, -1)),
    ];
    let spline = GenericBezierSpline::cubic_from_control_points(&control_points);
    assert_eq!(spline.curves.len(), 2);
    assert_eq!(spline.curves[0].points, vec![point(0, 0), point(1, 1), point(9, 1), point(10, 0)]);
    assert_eq!(spline.curves[1].points, vec![
        point(10, 0),
        point(11, -1),
        point(19, -1),
        point(20, 0),
    ]);
    let windowed = GenericSpline::cubic_from_control_points(&control_points);
    assert_eq!(windowed.curves.len(), 2);
    assert_eq!(windowed.curves[1].points, spline.curves[1].points);
    assert_eq!(windowed.get_point_along_spline(Scalar::new(1, 2)), Some(point(10, 0)));
}

#[test]
fn spline_from_one_or_no_control_point_has_no_segments() {
    let none: Vec<MirroredControlPoint<2>> = vec![];
    assert_eq!(GenericBezierSpline::cubic_from_control_points(&none).curves.len(), 0);
    let one = vec![MirroredControlPoint::new(point(1, 2), point(3, 4))];
    assert_eq!(GenericBezierSpline::cubic_from_control_points(&one).curves.len(), 0);
    assert_eq!(GenericSpline::cubic_from_control_points(&one).curves.len(), 0);
}

#[test]
fn spline_from_given_curves() {
    let first = GenericBezierCurve::new(vec![point(0, 0), point(4, 0)]);
    let second = GenericBezierCurve::new(vec![point(4, 0), point(4, 8)]);
    let third = GenericBezierCurve::new(vec![point(4, 8), point(0, 8), point(0, 0)]);
    let spline = GenericBezierSpline::from_curves(vec![first, second, third]);
    assert_eq!(spline.get_point_along_curve(Scalar::new(1, 6)), Some(point(2, 0)));
    assert_eq!(spline.get_point_along_curve(Scalar::new(1, 2)), Some(point(4, 4)));
    assert_eq!(spline.get_point_along_curve(Scalar::new(5, 6)), Some(point(1, 6)));
    assert_eq!(spline.get_point_along_curve(Scalar::one()), Some(point(0, 0)));
    assert_eq!(spline.get_tangent_along_curve(Scalar::new(1, 2)), Some(point(0, 8)));
}

#[test]
fn spline_of_splines() {
    let left = GenericBezierSpline::cubic_from_points(&seven_points()).unwrap();
    let right = GenericBezierSpline::cubic_from_points(&numbered(4)).unwrap();
    let both = GenericBezierSpline::from_curves(vec![left, right]);
    // the first half is the left spline, twice as fast
    assert_eq!(both.get_point_along_curve(Scalar::new(1, 4)), Some(point(6, 0)));
    assert_eq!(both.get_point_along_curve(Scalar::new(1, 2)), Some(point(0, 0)));
    assert_eq!(both.get_point_along_curve(Scalar::one()), Some(point(3, 9)));
}

#[test]
fn windowed_spline_evaluates_overlapping_segments() {
    let points = numbered(6);
    let spline = GenericSpline::cubic_from_points(&points).unwrap();
    assert_eq!(spline.curves.len(), 3);
    assert_eq!(spline.get_point_along_spline(Scalar::zero()), Some(points[0]));
    // the second segment starts at the second point, not where the first ended
    assert_eq!(spline.get_point_along_spline(Scalar::new(1, 3)), Some(points[1]));
    assert_eq!(spline.get_point_along_spline(Scalar::new(2, 3)), Some(points[2]));
    assert_eq!(spline.get_point_along_spline(Scalar::one()), Some(points[5]));
    assert_eq!(spline.get_point_along_spline(Scalar::new(4, 3)), None);
}
