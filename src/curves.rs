//! The prepared forms of the two source groups of a pairing, which carry the
//! data that a pairing computation consumes.
use vstd::prelude::*;

verus! {

/// An affine point of a short Weierstrass curve over a field whose elements
/// are of type `F`; the flag marks the point at infinity.
#[derive(Clone, Copy, Debug, PartialEq, Eq)]
pub struct GroupAffine<F> {
    pub x: F,
    pub y: F,
    pub infinity: bool,
}

impl<F> GroupAffine<F> {
    pub fn is_zero(&self) -> (r: bool)
        ensures
            r == self.infinity,
    {
        self.infinity
    }
}

/// A point of the first group, ready for pairing: the point itself.
#[derive(Clone, Copy, Debug, PartialEq, Eq)]
pub struct G1Prepared<F>(pub GroupAffine<F>);

impl<F> G1Prepared<F> {
    /// Whether the point is the point at infinity.
    pub fn is_zero(&self) -> (r: bool)
        ensures
            r == self.0.infinity,
    {
        self.0.is_zero()
    }

    pub fn from_affine(p: GroupAffine<F>) -> (r: Self)
        ensures
            r.0 == p,
    {
        G1Prepared(p)
    }
}

/// A point of the second group, ready for pairing: the coefficients of the
/// line functions of the Miller loop over the twist, with elements of the
/// quadratic extension of type `F`, and whether the point is at infinity.
#[derive(Clone, Debug)]
pub struct G2Prepared<F> {
    pub ell_coeffs: Vec<(F, F, F)>,
    pub infinity: bool,
}

impl<F> G2Prepared<F> {
    /// Whether the point is the point at infinity.
    pub fn is_zero(&self) -> (r: bool)
        ensures
            r == self.infinity,
    {
        self.infinity
    }
}

} // verus!
