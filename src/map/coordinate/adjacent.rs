use vstd::prelude::*;

use super::Coordinate;

verus! {

/// The cells that touch a coordinate from above, the right, below and the
/// left, on a grid that is unbounded to the right and below.
#[derive(Copy, Clone, Debug, PartialEq, Eq, Hash)]
pub struct Adjacent {
    pub top: Option<Coordinate>,
    pub right: Coordinate,
    pub down: Coordinate,
    pub left: Option<Coordinate>,
}

impl Adjacent {
    /// The cells around `other`; `top` and `left` are absent on the first row
    /// and column.
    pub fn from(other: Coordinate) -> (r: Self)
        requires
            other.0 < usize::MAX,
            other.1 < usize::MAX,
        ensures
            r.top == (if other.1 > 0 {
                Some(Coordinate(other.0, (other.1 - 1) as usize))
            } else {
                None
            }),
            r.right == Coordinate((other.0 + 1) as usize, other.1),
            r.down == Coordinate(other.0, (other.1 + 1) as usize),
            r.left == (if other.0 > 0 {
                Some(Coordinate((other.0 - 1) as usize, other.1))
            } else {
                None
            }),
    {
        Adjacent {
            top: if other.1 > 0 {
                Some(Coordinate(other.0, other.1 - 1))
            } else {
                None
            },
            right: Coordinate(other.0 + 1, other.1),
            down: Coordinate(other.0, other.1 + 1),
            left: if other.0 > 0 {
                Some(Coordinate(other.0 - 1, other.1))
            } else {
                None
            },
        }
    }
}

} // verus!
