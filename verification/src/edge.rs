use vstd::prelude::*;

verus! {

/// One side of a puzzle piece.
///
/// A `Border` faces the outside of the grid and mates only with another
/// `Border`. An `Innie` is a concave connector and an `Outie` a convex one;
/// an `Innie` mates exactly with an `Outie` carrying the same shape
/// identifier. Identifiers are compared for equality only; they carry no
/// order of their own.
#[derive(Clone, Copy, Debug, PartialEq, Eq, Structural)]
pub enum Edge {
    Border,
    Innie(usize),
    Outie(usize),
}

impl Edge {
    /// The mating side of `self`: the one value a neighbouring piece must
    /// show for the two sides to fit together.
    pub open spec fn spec_inverse(self) -> Edge {
        match self {
            Edge::Border => Edge::Border,
            Edge::Innie(id) => Edge::Outie(id),
            Edge::Outie(id) => Edge::Innie(id),
        }
    }

    /// Two sides fit together exactly when each is the inverse of the other.
    pub open spec fn spec_fits(self, other: Edge) -> bool {
        other == self.spec_inverse()
    }

    /// Computes the mating side: `Border` stays `Border`, and `Innie(n)`
    /// and `Outie(n)` exchange places.
    pub fn inverse(&self) -> (r: Edge)
        ensures
            r == self.spec_inverse(),
    {
        match *self {
            Edge::Border => Edge::Border,
            Edge::Innie(id) => Edge::Outie(id),
            Edge::Outie(id) => Edge::Innie(id),
        }
    }
}

/// Taking the mating side twice gives the original side back, for every
/// edge value.
pub proof fn lemma_inverse_involution(e: Edge)
    ensures
        e.spec_inverse().spec_inverse() == e,
{
}

/// Fitting is order-independent: `a` fits against `b` exactly when `b`
/// fits against `a`.
pub proof fn lemma_fits_symmetric(a: Edge, b: Edge)
    ensures
        a.spec_fits(b) == b.spec_fits(a),
{
}

} // verus!
