use vstd::prelude::*;

verus! {

use crate::definitions::{Array, compose, id_seq};
use crate::metric::{Htm, corner_move_seq, edge_move_seq};

/// The corner and edge arrays after one face turn.
pub open spec fn apply_spec(
    corners: Seq<(u8, u8)>,
    edges: Seq<(u8, u8)>,
    turn: Htm,
) -> (Seq<(u8, u8)>, Seq<(u8, u8)>) {
    (
        compose(corners, corner_move_seq(turn.idx()), 3),
        compose(edges, edge_move_seq(turn.idx()), 2),
    )
}

/// The corner and edge arrays after a sequence of face turns.
pub open spec fn apply_seq_spec(
    corners: Seq<(u8, u8)>,
    edges: Seq<(u8, u8)>,
    turns: Seq<Htm>,
) -> (Seq<(u8, u8)>, Seq<(u8, u8)>)
    decreases turns.len(),
{
    if turns.len() == 0 {
        (corners, edges)
    } else {
        let (c, e) = apply_spec(corners, edges, turns[0]);
        apply_seq_spec(c, e, turns.skip(1))
    }
}

/// The full 3x3x3 state: a corner cubie array over eight elements modulo
/// three, and an edge cubie array over twelve elements modulo two.
#[derive(Clone, Debug, Default, Eq, PartialEq)]
pub struct Cube3x3 {
    pub corners: Array<8, 3>,
    pub edges: Array<12, 2>,
}

impl Cube3x3 {
    /// Both arrays are valid cubie arrays.
    pub open spec fn wf(self) -> bool {
        self.corners.wf() && self.edges.wf()
    }

    /// Builds a state from its two arrays.
    pub fn new(corners: Array<8, 3>, edges: Array<12, 2>) -> (r: Self)
        ensures
            r.corners == corners,
            r.edges == edges,
    {
        Self { corners, edges }
    }

    /// The solved state.
    pub fn solved() -> (r: Self)
        ensures
            r.corners@ == id_seq(8),
            r.edges@ == id_seq(12),
            r.wf(),
    {
        Self { corners: Array::identity(), edges: Array::identity() }
    }

    /// The state after one face turn.
    pub fn apply(&self, turn: Htm) -> (r: Self)
        requires
            self.wf(),
        ensures
            (r.corners@, r.edges@) == apply_spec(self.corners@, self.edges@, turn),
            r.wf(),
    {
        let ix = turn.to_usize();
        let corners = self.corners.permute(&crate::metric::corner_move(ix));
        let edges = self.edges.permute(&crate::metric::edge_move(ix));
        Self { corners, edges }
    }

    /// The state after every turn of a slice, applied in order.
    pub fn apply_slice(self, slice: &[Htm]) -> (r: Self)
        requires
            self.wf(),
        ensures
            (r.corners@, r.edges@) == apply_seq_spec(self.corners@, self.edges@, slice@),
            r.wf(),
    {
        let mut state = self;
        let mut ix: usize = 0;
        proof {
            assert(slice@.skip(0) =~= slice@);
        }
        while ix < slice.len()
            invariant
                ix <= slice@.len(),
                state.wf(),
                apply_seq_spec(state.corners@, state.edges@, slice@.skip(ix as int))
                    == apply_seq_spec(self.corners@, self.edges@, slice@),
            decreases slice@.len() - ix,
        {
            proof {
                assert(slice@.skip(ix as int)[0] == slice@[ix as int]);
                assert(slice@.skip(ix as int).skip(1) =~= slice@.skip(ix + 1));
            }
            state = state.apply(slice[ix]);
            ix = ix + 1;
        }
        state
    }

    /// The state after every turn of a sequence, applied in order.
    pub fn apply_seq(&self, sequence: &Vec<Htm>) -> (r: Self)
        requires
            self.wf(),
        ensures
            (r.corners@, r.edges@) == apply_seq_spec(self.corners@, self.edges@, sequence@),
            r.wf(),
    {
        let copy = Cube3x3 { corners: self.corners.duplicate(), edges: self.edges.duplicate() };
        copy.apply_slice(sequence.as_slice())
    }

    /// The state a slice of turns scrambles the solved cube into.
    pub fn from_slice(slice: &[Htm]) -> (r: Self)
        ensures
            (r.corners@, r.edges@) == apply_seq_spec(id_seq(8), id_seq(12), slice@),
            r.wf(),
    {
        Self::solved().apply_slice(slice)
    }
}

} // verus!

verus! {

/// The corner and edge arrays that a scramble produces from the solved
/// state.
pub open spec fn scrambled_view(turns: Seq<Htm>) -> (Seq<(u8, u8)>, Seq<(u8, u8)>) {
    apply_seq_spec(id_seq(8), id_seq(12), turns)
}

} // verus!
