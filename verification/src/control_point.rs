//! Control points: an anchor position with two tangent handles.
//!
//! The handles are absolute positions. The first handle leads into the curve that
//! ends at the anchor, the second handle leads out of the curve that starts there.
use vstd::prelude::*;
use crate::scalar::Scalar;
use crate::vector::{scaled, sums, Vector};

verus! {

/// What a spline needs of a control point.
pub trait ControlPoint<const DIM: usize> {
    /// The anchor.
    spec fn position(&self) -> Seq<Option<real>>;

    /// The handle on the incoming side.
    spec fn first_handle(&self) -> Seq<Option<real>>;

    /// The handle on the outgoing side.
    spec fn second_handle(&self) -> Seq<Option<real>>;

    fn get_control_point_position(&self) -> (r: Vector<DIM>)
        ensures
            r@ == self.position(),
    ;

    fn get_first_handle(&self) -> (r: Vector<DIM>)
        ensures
            r@ == self.first_handle(),
    ;

    fn get_second_handle(&self) -> (r: Vector<DIM>)
        ensures
            r@ == self.second_handle(),
    ;
}

/// A control point whose two handles are given as they are.
pub struct CustomControlPoint<const DIM: usize> {
    position: Vector<DIM>,
    first_handle: Vector<DIM>,
    second_handle: Vector<DIM>,
}

impl<const DIM: usize> ControlPoint<DIM> for CustomControlPoint<DIM> {
    closed spec fn position(&self) -> Seq<Option<real>> {
        self.position@
    }

    closed spec fn first_handle(&self) -> Seq<Option<real>> {
        self.first_handle@
    }

    closed spec fn second_handle(&self) -> Seq<Option<real>> {
        self.second_handle@
    }

    fn get_control_point_position(&self) -> (r: Vector<DIM>) {
        self.position
    }

    fn get_first_handle(&self) -> (r: Vector<DIM>) {
        self.first_handle
    }

    fn get_second_handle(&self) -> (r: Vector<DIM>) {
        self.second_handle
    }
}

impl<const DIM: usize> CustomControlPoint<DIM> {
    pub fn new(position: Vector<DIM>, first_handle: Vector<DIM>, second_handle: Vector<DIM>) -> (r:
        Self)
        ensures
            r.position() == position@,
            r.first_handle() == first_handle@,
            r.second_handle() == second_handle@,
    {
        Self { position, first_handle, second_handle }
    }

    /// The control point of any kind, with its handles written out. A list that
    /// is to hold control points of several kinds holds them in this form.
    pub fn from_control_point<P: ControlPoint<DIM>>(point: &P) -> (r: Self)
        ensures
            r.position() == point.position(),
            r.first_handle() == point.first_handle(),
            r.second_handle() == point.second_handle(),
    {
        Self {
            position: point.get_control_point_position(),
            first_handle: point.get_first_handle(),
            second_handle: point.get_second_handle(),
        }
    }
}

/// A control point whose handles lie on one line through the anchor, on opposite
/// sides, each at its own distance. The direction is taken as given: it is the
/// caller who supplies one of length 1.
pub struct AlignedControlPoint<const DIM: usize> {
    position: Vector<DIM>,
    first_handle_unit_vector: Vector<DIM>,
    first_handle_length: Scalar,
    second_handle_length: Scalar,
}

/// The point `anchor + direction * length`.
pub open spec fn offset_along(
    anchor: Seq<Option<real>>,
    direction: Seq<Option<real>>,
    length: Option<real>,
) -> Seq<Option<real>> {
    sums(scaled(direction, length), anchor)
}

/// The point `anchor - direction * length`, formed as `anchor + (direction * length) * (-1)`.
pub open spec fn offset_against(
    anchor: Seq<Option<real>>,
    direction: Seq<Option<real>>,
    length: Option<real>,
) -> Seq<Option<real>> {
    sums(scaled(scaled(direction, length), Some(-1 as real)), anchor)
}

impl<const DIM: usize> ControlPoint<DIM> for AlignedControlPoint<DIM> {
    closed spec fn position(&self) -> Seq<Option<real>> {
        self.position@
    }

    closed spec fn first_handle(&self) -> Seq<Option<real>> {
        offset_along(self.position@, self.first_handle_unit_vector@, self.first_handle_length@)
    }

    closed spec fn second_handle(&self) -> Seq<Option<real>> {
        offset_against(self.position@, self.first_handle_unit_vector@, self.second_handle_length@)
    }

    fn get_control_point_position(&self) -> (r: Vector<DIM>) {
        self.position
    }

    fn get_first_handle(&self) -> (r: Vector<DIM>) {
        let relative = self.first_handle_unit_vector * self.first_handle_length;
        relative.add_vector(&self.position)
    }

    fn get_second_handle(&self) -> (r: Vector<DIM>) {
        let relative = self.first_handle_unit_vector * self.second_handle_length * Scalar::from_int(
            -1,
        );
        relative.add_vector(&self.position)
    }
}

impl<const DIM: usize> AlignedControlPoint<DIM> {
    pub fn new(
        position: Vector<DIM>,
        first_handle_unit_vector: Vector<DIM>,
        first_handle_length: Scalar,
        second_handle_length: Scalar,
    ) -> (r: Self)
        ensures
            r.position() == position@,
            r.first_handle() == offset_along(
                position@,
                first_handle_unit_vector@,
                first_handle_length@,
            ),
            r.second_handle() == offset_against(
                position@,
                first_handle_unit_vector@,
                second_handle_length@,
            ),
    {
        Self { position, first_handle_unit_vector, first_handle_length, second_handle_length }
    }
}

/// A control point whose second handle is the first one mirrored in the anchor.
pub struct MirroredControlPoint<const DIM: usize> {
    position: Vector<DIM>,
    first_handle_vector: Vector<DIM>,
}

impl<const DIM: usize> ControlPoint<DIM> for MirroredControlPoint<DIM> {
    closed spec fn position(&self) -> Seq<Option<real>> {
        self.position@
    }

    closed spec fn first_handle(&self) -> Seq<Option<real>> {
        sums(self.first_handle_vector@, self.position@)
    }

    closed spec fn second_handle(&self) -> Seq<Option<real>> {
        sums(scaled(self.first_handle_vector@, Some(-1 as real)), self.position@)
    }

    fn get_control_point_position(&self) -> (r: Vector<DIM>) {
        self.position
    }

    fn get_first_handle(&self) -> (r: Vector<DIM>) {
        self.first_handle_vector.add_vector(&self.position)
    }

    fn get_second_handle(&self) -> (r: Vector<DIM>) {
        (self.first_handle_vector * Scalar::from_int(-1)).add_vector(&self.position)
    }
}

impl<const DIM: usize> MirroredControlPoint<DIM> {
    pub fn new(position: Vector<DIM>, first_handle_vector: Vector<DIM>) -> (r: Self)
        ensures
            r.position() == position@,
            r.first_handle() == sums(first_handle_vector@, position@),
            r.second_handle() == sums(scaled(first_handle_vector@, Some(-1 as real)), position@),
    {
        Self { position, first_handle_vector }
    }
}

/// Mirrored handles are symmetric about the anchor: in every component in which
/// both handles are defined, the offset of the first handle from the anchor is the
/// negative of the offset of the second.
pub proof fn lemma_mirrored_symmetry<const DIM: usize>(point: MirroredControlPoint<DIM>, k: int)
    requires
        0 <= k < DIM,
        point.first_handle()[k] is Some,
        point.second_handle()[k] is Some,
    ensures
        point.position()[k] is Some,
        point.first_handle()[k].unwrap() - point.position()[k].unwrap() == -(
        point.second_handle()[k].unwrap() - point.position()[k].unwrap()),
{
    let h = point.first_handle_vector@[k].unwrap();
    assert((-1 as real) * h == -h) by (nonlinear_arith);
}

} // verus!
