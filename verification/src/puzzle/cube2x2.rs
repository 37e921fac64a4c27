use vstd::prelude::*;

verus! {

use crate::definitions::{PermutationCoord, OrientationCoord};

/// The 2x2x2 state: the permutation and orientation coordinates of its
/// eight corners.
#[derive(Clone, Debug, Default, Eq, PartialEq)]
pub struct Cube2x2 {
    pub permutation: PermutationCoord<8>,
    pub orientation: OrientationCoord<8, 3>,
}

impl Cube2x2 {
    /// Builds a state from its two coordinates.
    pub fn new(permutation: PermutationCoord<8>, orientation: OrientationCoord<8, 3>) -> (r: Self)
        ensures
            r.permutation == permutation,
            r.orientation == orientation,
    {
        Self { permutation, orientation }
    }
}

} // verus!
