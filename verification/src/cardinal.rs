//! Four values of one type, one for each quadrant of a square.

use vstd::prelude::*;

verus! {

/// The tag of a quadrant.
pub enum Quadrant {
    Northwest,
    Northeast,
    Southwest,
    Southeast,
}

/// One value for each of the four quadrants.
#[derive(Debug, PartialEq, Eq)]
pub struct Cardinal<T> {
    pub nw: T,
    pub ne: T,
    pub sw: T,
    pub se: T,
}

impl<T> Cardinal<T> {
    /// The value held for quadrant `d`.
    pub open spec fn at(self, d: Quadrant) -> T {
        match d {
            Quadrant::Northwest => self.nw,
            Quadrant::Northeast => self.ne,
            Quadrant::Southwest => self.sw,
            Quadrant::Southeast => self.se,
        }
    }

    /// The same group with `t` in place of the value for quadrant `d`.
    pub open spec fn with(self, d: Quadrant, t: T) -> Self {
        match d {
            Quadrant::Northwest => Cardinal { nw: t, ..self },
            Quadrant::Northeast => Cardinal { ne: t, ..self },
            Quadrant::Southwest => Cardinal { sw: t, ..self },
            Quadrant::Southeast => Cardinal { se: t, ..self },
        }
    }

    /// Bundles four values, named by their quadrants.
    pub fn new(nw: T, ne: T, sw: T, se: T) -> (c: Self)
        ensures
            c == (Cardinal { nw, ne, sw, se }),
    {
        Cardinal { nw, ne, sw, se }
    }
}

} // verus!
