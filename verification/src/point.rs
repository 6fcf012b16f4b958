//! What the tree asks of the values it stores.

use vstd::prelude::*;
use crate::number::QTNumber;

verus! {

/// A value with a position in the plane.
///
/// `x` and `y` return what `spec_x` and `spec_y` name, so a point never
/// moves: every reading of a coordinate gives the same number.
pub trait Point<N> {
    /// The horizontal coordinate.
    spec fn spec_x(&self) -> N;

    /// The vertical coordinate.
    spec fn spec_y(&self) -> N;

    /// Reads the horizontal coordinate.
    fn x(&self) -> (r: N)
        ensures
            r == self.spec_x(),
    ;

    /// Reads the vertical coordinate.
    fn y(&self) -> (r: N)
        ensures
            r == self.spec_y(),
    ;
}

/// A pair of numbers is the point with these coordinates.
impl<N: QTNumber> Point<N> for (N, N) {
    open spec fn spec_x(&self) -> N {
        self.0
    }

    open spec fn spec_y(&self) -> N {
        self.1
    }

    fn x(&self) -> (r: N) {
        self.0
    }

    fn y(&self) -> (r: N) {
        self.1
    }
}

/// A stored value together with the integer position it sits at.
pub struct Placed<P> {
    pub x: int,
    pub y: int,
    pub item: P,
}

/// The point `p` with its coordinates written out as integers.
pub open spec fn place<N: QTNumber, P: Point<N>>(p: P) -> Placed<P> {
    Placed { x: p.spec_x().value(), y: p.spec_y().value(), item: p }
}

/// The points of `s`, each with its coordinates written out.
pub open spec fn place_all<N: QTNumber, P: Point<N>>(s: Seq<P>) -> Seq<Placed<P>> {
    s.map_values(|p: P| place::<N, P>(p))
}

} // verus!
