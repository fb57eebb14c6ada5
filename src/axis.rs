//! Compile-time names of the axis that an axis-orthogonal shape is
//! perpendicular to.
use vstd::prelude::*;
use crate::vec3::Axis;

verus! {

/// The lower of the two axes other than `a`, in X, Y, Z order.
pub open spec fn first_other(a: Axis) -> Axis {
    match a {
        Axis::X => Axis::Y,
        _ => Axis::X,
    }
}

/// The higher of the two axes other than `a`, in X, Y, Z order.
pub open spec fn second_other(a: Axis) -> Axis {
    match a {
        Axis::Z => Axis::Y,
        _ => Axis::Z,
    }
}

/// The two axes other than `a`, in alphabetical order.
pub fn others(a: Axis) -> (r: (Axis, Axis))
    ensures
        r == (first_other(a), second_other(a)),
{
    match a {
        Axis::X => (Axis::Y, Axis::Z),
        Axis::Y => (Axis::X, Axis::Z),
        Axis::Z => (Axis::X, Axis::Y),
    }
}

/// A type that names one world axis. `other1` and `other2` are the two
/// remaining axes, in alphabetical order.
pub trait StaticAxis {
    spec fn axis_spec() -> Axis;

    fn axis() -> (r: Axis)
        ensures
            r == Self::axis_spec(),
    ;

    fn other1() -> (r: Axis)
        ensures
            r == first_other(Self::axis_spec()),
    ;

    fn other2() -> (r: Axis)
        ensures
            r == second_other(Self::axis_spec()),
    ;
}

/// Compile-time name for the X axis.
#[derive(Clone, Copy, Debug)]
pub struct StaticX;

/// Compile-time name for the Y axis.
#[derive(Clone, Copy, Debug)]
pub struct StaticY;

/// Compile-time name for the Z axis.
#[derive(Clone, Copy, Debug)]
pub struct StaticZ;

impl StaticAxis for StaticX {
    open spec fn axis_spec() -> Axis {
        Axis::X
    }

    fn axis() -> Axis {
        Axis::X
    }

    fn other1() -> Axis {
        Axis::Y
    }

    fn other2() -> Axis {
        Axis::Z
    }
}

impl StaticAxis for StaticY {
    open spec fn axis_spec() -> Axis {
        Axis::Y
    }

    fn axis() -> Axis {
        Axis::Y
    }

    fn other1() -> Axis {
        Axis::X
    }

    fn other2() -> Axis {
        Axis::Z
    }
}

impl StaticAxis for StaticZ {
    open spec fn axis_spec() -> Axis {
        Axis::Z
    }

    fn axis() -> Axis {
        Axis::Z
    }

    fn other1() -> Axis {
        Axis::X
    }

    fn other2() -> Axis {
        Axis::Y
    }
}

} // verus!
