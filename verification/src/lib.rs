//! Exact Bezier curves and splines in any fixed dimension.
//!
//! Points are vectors of rational scalars, curves are held in power basis, and
//! splines map one parameter over the unit interval onto their segments. All
//! arithmetic is exact: a result is either the true value or marked undefined.
pub mod bezier;
pub mod calculus;
pub mod control_point;
pub mod curve_theorems;
pub mod lowest_terms;
pub mod maths;
pub mod scalar;
pub mod vector;

use vstd::prelude::*;
use crate::bezier::{
    locate, locate_segment, segment_between, BezierCurve, GenericBezierCurve, GenericBezierSpline,
};
use crate::control_point::ControlPoint;
use crate::maths::values_of;
use crate::scalar::Scalar;
use crate::vector::{view_of, Vector};

verus! {

/// A curve made of segments that is evaluated at one global parameter.
pub trait Spline<const DIM: usize> {
    /// The position at the global parameter `t`, or nothing where `t` falls in no
    /// segment.
    spec fn point_on(&self, t: Option<real>) -> Option<Seq<Option<real>>>;

    fn get_point_along_spline(&self, t: Scalar) -> (r: Option<Vector<DIM>>)
        ensures
            view_of(r) == self.point_on(t@),
    ;
}

/// A spline of curves that each have an equal share of the unit interval.
pub struct GenericSpline<const DIM: usize, C: BezierCurve<DIM> = GenericBezierCurve<DIM>> {
    pub curves: Vec<C>,
}

impl<const DIM: usize, C: BezierCurve<DIM>> GenericSpline<DIM, C> {
    /// The spline of the given curves, in their order.
    pub fn from_curves(curves: Vec<C>) -> (spline: Self)
        ensures
            spline.curves == curves,
    {
        Self { curves }
    }
}

impl<const DIM: usize> GenericSpline<DIM, GenericBezierCurve<DIM>> {
    fn cubic_bezier_from_points(points: [Vector<DIM>; 4]) -> (curve: GenericBezierCurve<DIM>)
        ensures
            curve.points@ == points@,
            curve.well_formed(),
    {
        let mut list: Vec<Vector<DIM>> = Vec::new();
        list.push(points[0]);
        list.push(points[1]);
        list.push(points[2]);
        list.push(points[3]);
        assert(list@ =~= points@);
        GenericBezierCurve::new(list)
    }

    /// The spline of overlapping cubic curves over a flat list of points: curve `k`
    /// has the four points from index `k` on, so each curve starts one point after
    /// the one before it and shares three points with it. A list of fewer than four
    /// points gives a spline without curves.
    pub fn cubic_from_points(points: &Vec<Vector<DIM>>) -> (spline: Option<Self>)
        ensures
            spline is Some,
            spline matches Some(s) ==> {
                &&& points.len() >= 4 ==> s.curves.len() == points.len() - 3
                &&& points.len() < 4 ==> s.curves.len() == 0
                &&& forall|k: int|
                    0 <= k < s.curves.len() ==> {
                        &&& (#[trigger] s.curves[k]).points@ == points@.subrange(k, k + 4)
                        &&& s.curves[k].well_formed()
                    }
            },
    {
        let mut curves: Vec<GenericBezierCurve<DIM>> = Vec::new();
        let mut curve_index: usize = 0;
        while curve_index + 3 < points.len()
            invariant
                curve_index + 3 <= points.len() || curve_index == 0,
                curves.len() == curve_index,
                forall|k: int|
                    0 <= k < curve_index ==> {
                        &&& (#[trigger] curves[k]).points@ == points@.subrange(k, k + 4)
                        &&& curves[k].well_formed()
                    },
            decreases points.len() - curve_index,
        {
            let point1 = points[curve_index];
            let point2 = points[curve_index + 1];
            let point3 = points[curve_index + 2];
            let point4 = points[curve_index + 3];
            let curve = Self::cubic_bezier_from_points([point1, point2, point3, point4]);
            assert(curve.points@ =~= points@.subrange(curve_index as int, curve_index + 4));
            curves.push(curve);
            curve_index = curve_index + 1;
        }
        Some(Self { curves })
    }

    /// The spline of cubic curves between consecutive control points. Curve `k`
    /// runs from point `k` to point `k + 1`, leaving along the second handle of the
    /// one and arriving along the first handle of the other.
    pub fn cubic_from_control_points<P: ControlPoint<DIM>>(points: &Vec<P>) -> (spline: Self)
        ensures
            points.len() == 0 ==> spline.curves.len() == 0,
            points.len() > 0 ==> spline.curves.len() == points.len() - 1,
            forall|k: int|
                0 <= k < spline.curves.len() ==> {
                    &&& values_of((#[trigger] spline.curves[k]).points@) == segment_between(
                        points@,
                        k,
                    )
                    &&& spline.curves[k].well_formed()
                },
    {
        let chained = GenericBezierSpline::cubic_from_control_points(points);
        Self { curves: chained.curves }
    }
}

impl<const DIM: usize, C: BezierCurve<DIM>> Spline<DIM> for GenericSpline<DIM, C> {
    /// The position on the segment in which `t` falls, at the local parameter.
    open spec fn point_on(&self, t: Option<real>) -> Option<Seq<Option<real>>> {
        match locate(t, self.curves.len() as nat) {
            Some((index, local)) => self.curves[index as int].point_at(local),
            None => None,
        }
    }

    fn get_point_along_spline(&self, t: Scalar) -> (r: Option<Vector<DIM>>) {
        let (curve_index, curve_relative_t) = locate_segment(t, self.curves.len())?;
        self.curves[curve_index].get_point_along_curve(curve_relative_t)
    }
}

/// The end of a spline is the end of its last segment: at the global parameter 1
/// a spline with at least one segment has the position of its last segment at
/// the local parameter 1.
pub proof fn lemma_end_is_last_segment<const DIM: usize, C: BezierCurve<DIM>>(
    spline: GenericSpline<DIM, C>,
)
    requires
        spline.curves.len() > 0,
    ensures
        spline.point_on(Some(1 as real)) == spline.curves[spline.curves.len() - 1].point_at(
            Some(1 as real),
        ),
{
}

} // verus!
