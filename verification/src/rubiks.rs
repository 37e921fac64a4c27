use vstd::prelude::*;

verus! {

use crate::definitions::{PermutationCoord, p_canon, lehmer, compose};
use crate::permutations::{PermutationArray, Coordinate, TransitionTable};
use crate::util::fact;

/// A reduced solver state: the permutation coordinate of the eight corners
/// alone.
#[derive(Clone, Copy, Debug, Default, Eq, PartialEq)]
pub struct CornerCube {
    pub corner_permutation: Coordinate<8>,
}

impl CornerCube {
    /// The coordinate is inside its space.
    pub open spec fn wf(self) -> bool {
        self.corner_permutation.wf()
    }

    /// Builds a state from its corner permutation coordinate.
    pub fn new(corner_permutation: Coordinate<8>) -> (r: Self)
        ensures
            r.corner_permutation == corner_permutation,
    {
        CornerCube { corner_permutation }
    }
}

/// The transition table of the corner permutations under a fixed move
/// list.
pub struct CornerCubeMoveTable(pub TransitionTable<8>);

impl CornerCubeMoveTable {
    /// Well-formedness of the inner table.
    pub open spec fn wf(self) -> bool {
        self.0.wf()
    }

    /// The remembered generator views.
    pub open spec fn gens(self) -> Seq<Seq<(u8, u8)>> {
        self.0.gens()
    }

    /// Builds the table from a list of corner permutations.
    pub fn new(moves: &Vec<PermutationArray<8>>) -> (r: Self)
        requires
            1 <= moves@.len() <= 64,
            fact(8) * moves@.len() <= 0xffff_ffff,
            forall|i: int| 0 <= i < moves@.len() ==> (#[trigger] moves@[i]).wf(),
        ensures
            r.wf(),
            r.gens().len() == moves@.len(),
            forall|i: int| 0 <= i < moves@.len() ==> (#[trigger] r.gens()[i]) == moves@[i].arr@,
    {
        CornerCubeMoveTable(TransitionTable::new(moves))
    }

    /// The state that `position` becomes under the move with the given
    /// index.
    pub fn apply(&self, position: CornerCube, turn: usize) -> (r: CornerCube)
        requires
            self.wf(),
            position.wf(),
            turn < self.gens().len(),
        ensures
            r.corner_permutation@ == lehmer(compose(
                p_canon(position.corner_permutation@, 8), self.gens()[turn as int], 1)),
            r.wf(),
    {
        CornerCube { corner_permutation: self.0.transition(position.corner_permutation, turn) }
    }
}

} // verus!
