use vstd::prelude::*;

verus! {

use crate::definitions::{Array, is_valid};

/// The eighteen face turns of the half-turn metric, listed face by face as
/// quarter turn, half turn, inverse quarter turn.
#[derive(Clone, Copy, Debug, PartialEq, Eq, Structural)]
pub enum Htm {
    U1, U2, U3, R1, R2, R3, F1, F2, F3, L1, L2, L3, D1, D2, D3, B1, B2, B3,
}

/// How many generators the half-turn metric has.
pub const MOVE_COUNT: usize = 18;

/// The corner cubie array of the face turn with index `ix`.
pub open spec fn corner_move_seq(ix: int) -> Seq<(u8, u8)> {
    if ix == 0 {
        seq![(3, 0), (0, 0), (1, 0), (2, 0), (4, 0), (5, 0), (6, 0), (7, 0)]
    } else if ix == 1 {
        seq![(2, 0), (3, 0), (0, 0), (1, 0), (4, 0), (5, 0), (6, 0), (7, 0)]
    } else if ix == 2 {
        seq![(1, 0), (2, 0), (3, 0), (0, 0), (4, 0), (5, 0), (6, 0), (7, 0)]
    } else if ix == 3 {
        seq![(4, 2), (1, 0), (2, 0), (0, 1), (7, 1), (5, 0), (6, 0), (3, 2)]
    } else if ix == 4 {
        seq![(7, 0), (1, 0), (2, 0), (4, 0), (3, 0), (5, 0), (6, 0), (0, 0)]
    } else if ix == 5 {
        seq![(3, 2), (1, 0), (2, 0), (7, 1), (0, 1), (5, 0), (6, 0), (4, 2)]
    } else if ix == 6 {
        seq![(1, 1), (5, 2), (2, 0), (3, 0), (0, 2), (4, 1), (6, 0), (7, 0)]
    } else if ix == 7 {
        seq![(5, 0), (4, 0), (2, 0), (3, 0), (1, 0), (0, 0), (6, 0), (7, 0)]
    } else if ix == 8 {
        seq![(4, 1), (0, 2), (2, 0), (3, 0), (5, 2), (1, 1), (6, 0), (7, 0)]
    } else if ix == 9 {
        seq![(0, 0), (2, 1), (6, 2), (3, 0), (4, 0), (1, 2), (5, 1), (7, 0)]
    } else if ix == 10 {
        seq![(0, 0), (6, 0), (5, 0), (3, 0), (4, 0), (2, 0), (1, 0), (7, 0)]
    } else if ix == 11 {
        seq![(0, 0), (5, 1), (1, 2), (3, 0), (4, 0), (6, 2), (2, 1), (7, 0)]
    } else if ix == 12 {
        seq![(0, 0), (1, 0), (2, 0), (3, 0), (5, 0), (6, 0), (7, 0), (4, 0)]
    } else if ix == 13 {
        seq![(0, 0), (1, 0), (2, 0), (3, 0), (6, 0), (7, 0), (4, 0), (5, 0)]
    } else if ix == 14 {
        seq![(0, 0), (1, 0), (2, 0), (3, 0), (7, 0), (4, 0), (5, 0), (6, 0)]
    } else if ix == 15 {
        seq![(0, 0), (1, 0), (3, 1), (7, 2), (4, 0), (5, 0), (2, 2), (6, 1)]
    } else if ix == 16 {
        seq![(0, 0), (1, 0), (7, 0), (6, 0), (4, 0), (5, 0), (3, 0), (2, 0)]
    } else {
        seq![(0, 0), (1, 0), (6, 1), (2, 2), (4, 0), (5, 0), (7, 2), (3, 1)]
    }
}

/// The edge cubie array of the face turn with index `ix`.
pub open spec fn edge_move_seq(ix: int) -> Seq<(u8, u8)> {
    if ix == 0 {
        seq![(3, 0), (0, 0), (1, 0), (2, 0), (4, 0), (5, 0), (6, 0), (7, 0), (8, 0), (9, 0), (10, 0), (11, 0)]
    } else if ix == 1 {
        seq![(2, 0), (3, 0), (0, 0), (1, 0), (4, 0), (5, 0), (6, 0), (7, 0), (8, 0), (9, 0), (10, 0), (11, 0)]
    } else if ix == 2 {
        seq![(1, 0), (2, 0), (3, 0), (0, 0), (4, 0), (5, 0), (6, 0), (7, 0), (8, 0), (9, 0), (10, 0), (11, 0)]
    } else if ix == 3 {
        seq![(8, 0), (1, 0), (2, 0), (3, 0), (11, 0), (5, 0), (6, 0), (7, 0), (4, 0), (9, 0), (10, 0), (0, 0)]
    } else if ix == 4 {
        seq![(4, 0), (1, 0), (2, 0), (3, 0), (0, 0), (5, 0), (6, 0), (7, 0), (11, 0), (9, 0), (10, 0), (8, 0)]
    } else if ix == 5 {
        seq![(11, 0), (1, 0), (2, 0), (3, 0), (8, 0), (5, 0), (6, 0), (7, 0), (0, 0), (9, 0), (10, 0), (4, 0)]
    } else if ix == 6 {
        seq![(0, 0), (9, 1), (2, 0), (3, 0), (4, 0), (8, 1), (6, 0), (7, 0), (1, 1), (5, 1), (10, 0), (11, 0)]
    } else if ix == 7 {
        seq![(0, 0), (5, 0), (2, 0), (3, 0), (4, 0), (1, 0), (6, 0), (7, 0), (9, 0), (8, 0), (10, 0), (11, 0)]
    } else if ix == 8 {
        seq![(0, 0), (8, 1), (2, 0), (3, 0), (4, 0), (9, 1), (6, 0), (7, 0), (5, 1), (1, 1), (10, 0), (11, 0)]
    } else if ix == 9 {
        seq![(0, 0), (1, 0), (10, 0), (3, 0), (4, 0), (5, 0), (9, 0), (7, 0), (8, 0), (2, 0), (6, 0), (11, 0)]
    } else if ix == 10 {
        seq![(0, 0), (1, 0), (6, 0), (3, 0), (4, 0), (5, 0), (2, 0), (7, 0), (8, 0), (10, 0), (9, 0), (11, 0)]
    } else if ix == 11 {
        seq![(0, 0), (1, 0), (9, 0), (3, 0), (4, 0), (5, 0), (10, 0), (7, 0), (8, 0), (6, 0), (2, 0), (11, 0)]
    } else if ix == 12 {
        seq![(0, 0), (1, 0), (2, 0), (3, 0), (5, 0), (6, 0), (7, 0), (4, 0), (8, 0), (9, 0), (10, 0), (11, 0)]
    } else if ix == 13 {
        seq![(0, 0), (1, 0), (2, 0), (3, 0), (6, 0), (7, 0), (4, 0), (5, 0), (8, 0), (9, 0), (10, 0), (11, 0)]
    } else if ix == 14 {
        seq![(0, 0), (1, 0), (2, 0), (3, 0), (7, 0), (4, 0), (5, 0), (6, 0), (8, 0), (9, 0), (10, 0), (11, 0)]
    } else if ix == 15 {
        seq![(0, 0), (1, 0), (2, 0), (11, 1), (4, 0), (5, 0), (6, 0), (10, 1), (8, 0), (9, 0), (3, 1), (7, 1)]
    } else if ix == 16 {
        seq![(0, 0), (1, 0), (2, 0), (7, 0), (4, 0), (5, 0), (6, 0), (3, 0), (8, 0), (9, 0), (11, 0), (10, 0)]
    } else {
        seq![(0, 0), (1, 0), (2, 0), (10, 1), (4, 0), (5, 0), (6, 0), (11, 1), (8, 0), (9, 0), (7, 1), (3, 1)]
    }
}

/// Builds the vector of the given twelve pairs.
fn mk12(xs: [(u8, u8); 12]) -> (r: Vec<(u8, u8)>)
    ensures
        r@ =~= seq![xs[0], xs[1], xs[2], xs[3], xs[4], xs[5], xs[6], xs[7], xs[8], xs[9], xs[10], xs[11]],
{
    let mut v: Vec<(u8, u8)> = Vec::new();
    let mut i: usize = 0;
    while i < 12
        invariant
            i <= 12,
            v@.len() == i,
            forall|j: int| 0 <= j < i ==> v@[j] == xs@[j],
        decreases 12 - i,
    {
        v.push(xs[i]);
        i = i + 1;
    }
    v
}

/// Builds the vector of the given eight pairs.
fn mk8(xs: [(u8, u8); 8]) -> (r: Vec<(u8, u8)>)
    ensures
        r@ =~= seq![xs[0], xs[1], xs[2], xs[3], xs[4], xs[5], xs[6], xs[7]],
{
    let mut v: Vec<(u8, u8)> = Vec::new();
    let mut i: usize = 0;
    while i < 8
        invariant
            i <= 8,
            v@.len() == i,
            forall|j: int| 0 <= j < i ==> v@[j] == xs@[j],
        decreases 8 - i,
    {
        v.push(xs[i]);
        i = i + 1;
    }
    v
}

/// The corner cubie array of the face turn with index `ix`.
pub fn corner_move(ix: usize) -> (r: Array<8, 3>)
    requires
        ix < 18,
    ensures
        r@ == corner_move_seq(ix as int),
        r.wf(),
{
    let v: Vec<(u8, u8)> =
    if ix == 0 {
        mk8([(3, 0), (0, 0), (1, 0), (2, 0), (4, 0), (5, 0), (6, 0), (7, 0)])
    } else if ix == 1 {
        mk8([(2, 0), (3, 0), (0, 0), (1, 0), (4, 0), (5, 0), (6, 0), (7, 0)])
    } else if ix == 2 {
        mk8([(1, 0), (2, 0), (3, 0), (0, 0), (4, 0), (5, 0), (6, 0), (7, 0)])
    } else if ix == 3 {
        mk8([(4, 2), (1, 0), (2, 0), (0, 1), (7, 1), (5, 0), (6, 0), (3, 2)])
    } else if ix == 4 {
        mk8([(7, 0), (1, 0), (2, 0), (4, 0), (3, 0), (5, 0), (6, 0), (0, 0)])
    } else if ix == 5 {
        mk8([(3, 2), (1, 0), (2, 0), (7, 1), (0, 1), (5, 0), (6, 0), (4, 2)])
    } else if ix == 6 {
        mk8([(1, 1), (5, 2), (2, 0), (3, 0), (0, 2), (4, 1), (6, 0), (7, 0)])
    } else if ix == 7 {
        mk8([(5, 0), (4, 0), (2, 0), (3, 0), (1, 0), (0, 0), (6, 0), (7, 0)])
    } else if ix == 8 {
        mk8([(4, 1), (0, 2), (2, 0), (3, 0), (5, 2), (1, 1), (6, 0), (7, 0)])
    } else if ix == 9 {
        mk8([(0, 0), (2, 1), (6, 2), (3, 0), (4, 0), (1, 2), (5, 1), (7, 0)])
    } else if ix == 10 {
        mk8([(0, 0), (6, 0), (5, 0), (3, 0), (4, 0), (2, 0), (1, 0), (7, 0)])
    } else if ix == 11 {
        mk8([(0, 0), (5, 1), (1, 2), (3, 0), (4, 0), (6, 2), (2, 1), (7, 0)])
    } else if ix == 12 {
        mk8([(0, 0), (1, 0), (2, 0), (3, 0), (5, 0), (6, 0), (7, 0), (4, 0)])
    } else if ix == 13 {
        mk8([(0, 0), (1, 0), (2, 0), (3, 0), (6, 0), (7, 0), (4, 0), (5, 0)])
    } else if ix == 14 {
        mk8([(0, 0), (1, 0), (2, 0), (3, 0), (7, 0), (4, 0), (5, 0), (6, 0)])
    } else if ix == 15 {
        mk8([(0, 0), (1, 0), (3, 1), (7, 2), (4, 0), (5, 0), (2, 2), (6, 1)])
    } else if ix == 16 {
        mk8([(0, 0), (1, 0), (7, 0), (6, 0), (4, 0), (5, 0), (3, 0), (2, 0)])
    } else {
        mk8([(0, 0), (1, 0), (6, 1), (2, 2), (4, 0), (5, 0), (7, 2), (3, 1)])
    };
    proof {
        assert(v@ =~= corner_move_seq(ix as int));
        assert(is_valid(corner_move_seq(ix as int), 8, 3));
    }
    Array::new(v)
}

/// The edge cubie array of the face turn with index `ix`.
pub fn edge_move(ix: usize) -> (r: Array<12, 2>)
    requires
        ix < 18,
    ensures
        r@ == edge_move_seq(ix as int),
        r.wf(),
{
    let v: Vec<(u8, u8)> =
    if ix == 0 {
        mk12([(3, 0), (0, 0), (1, 0), (2, 0), (4, 0), (5, 0), (6, 0), (7, 0), (8, 0), (9, 0), (10, 0), (11, 0)])
    } else if ix == 1 {
        mk12([(2, 0), (3, 0), (0, 0), (1, 0), (4, 0), (5, 0), (6, 0), (7, 0), (8, 0), (9, 0), (10, 0), (11, 0)])
    } else if ix == 2 {
        mk12([(1, 0), (2, 0), (3, 0), (0, 0), (4, 0), (5, 0), (6, 0), (7, 0), (8, 0), (9, 0), (10, 0), (11, 0)])
    } else if ix == 3 {
        mk12([(8, 0), (1, 0), (2, 0), (3, 0), (11, 0), (5, 0), (6, 0), (7, 0), (4, 0), (9, 0), (10, 0), (0, 0)])
    } else if ix == 4 {
        mk12([(4, 0), (1, 0), (2, 0), (3, 0), (0, 0), (5, 0), (6, 0), (7, 0), (11, 0), (9, 0), (10, 0), (8, 0)])
    } else if ix == 5 {
        mk12([(11, 0), (1, 0), (2, 0), (3, 0), (8, 0), (5, 0), (6, 0), (7, 0), (0, 0), (9, 0), (10, 0), (4, 0)])
    } else if ix == 6 {
        mk12([(0, 0), (9, 1), (2, 0), (3, 0), (4, 0), (8, 1), (6, 0), (7, 0), (1, 1), (5, 1), (10, 0), (11, 0)])
    } else if ix == 7 {
        mk12([(0, 0), (5, 0), (2, 0), (3, 0), (4, 0), (1, 0), (6, 0), (7, 0), (9, 0), (8, 0), (10, 0), (11, 0)])
    } else if ix == 8 {
        mk12([(0, 0), (8, 1), (2, 0), (3, 0), (4, 0), (9, 1), (6, 0), (7, 0), (5, 1), (1, 1), (10, 0), (11, 0)])
    } else if ix == 9 {
        mk12([(0, 0), (1, 0), (10, 0), (3, 0), (4, 0), (5, 0), (9, 0), (7, 0), (8, 0), (2, 0), (6, 0), (11, 0)])
    } else if ix == 10 {
        mk12([(0, 0), (1, 0), (6, 0), (3, 0), (4, 0), (5, 0), (2, 0), (7, 0), (8, 0), (10, 0), (9, 0), (11, 0)])
    } else if ix == 11 {
        mk12([(0, 0), (1, 0), (9, 0), (3, 0), (4, 0), (5, 0), (10, 0), (7, 0), (8, 0), (6, 0), (2, 0), (11, 0)])
    } else if ix == 12 {
        mk12([(0, 0), (1, 0), (2, 0), (3, 0), (5, 0), (6, 0), (7, 0), (4, 0), (8, 0), (9, 0), (10, 0), (11, 0)])
    } else if ix == 13 {
        mk12([(0, 0), (1, 0), (2, 0), (3, 0), (6, 0), (7, 0), (4, 0), (5, 0), (8, 0), (9, 0), (10, 0), (11, 0)])
    } else if ix == 14 {
        mk12([(0, 0), (1, 0), (2, 0), (3, 0), (7, 0), (4, 0), (5, 0), (6, 0), (8, 0), (9, 0), (10, 0), (11, 0)])
    } else if ix == 15 {
        mk12([(0, 0), (1, 0), (2, 0), (11, 1), (4, 0), (5, 0), (6, 0), (10, 1), (8, 0), (9, 0), (3, 1), (7, 1)])
    } else if ix == 16 {
        mk12([(0, 0), (1, 0), (2, 0), (7, 0), (4, 0), (5, 0), (6, 0), (3, 0), (8, 0), (9, 0), (11, 0), (10, 0)])
    } else {
        mk12([(0, 0), (1, 0), (2, 0), (10, 1), (4, 0), (5, 0), (6, 0), (11, 1), (8, 0), (9, 0), (7, 1), (3, 1)])
    };
    proof {
        assert(v@ =~= edge_move_seq(ix as int));
        assert(is_valid(edge_move_seq(ix as int), 12, 2));
    }
    Array::new(v)
}

impl Htm {
    /// The index of this turn in the fixed eighteen-move listing.
    pub open spec fn idx(self) -> int {
        match self {
            Htm::U1 => 0, Htm::U2 => 1, Htm::U3 => 2,
            Htm::R1 => 3, Htm::R2 => 4, Htm::R3 => 5,
            Htm::F1 => 6, Htm::F2 => 7, Htm::F3 => 8,
            Htm::L1 => 9, Htm::L2 => 10, Htm::L3 => 11,
            Htm::D1 => 12, Htm::D2 => 13, Htm::D3 => 14,
            Htm::B1 => 15, Htm::B2 => 16, Htm::B3 => 17,
        }
    }

    /// The index of this turn, as a value.
    pub fn to_usize(self) -> (r: usize)
        ensures
            r == self.idx(),
    {
        match self {
            Htm::U1 => 0, Htm::U2 => 1, Htm::U3 => 2,
            Htm::R1 => 3, Htm::R2 => 4, Htm::R3 => 5,
            Htm::F1 => 6, Htm::F2 => 7, Htm::F3 => 8,
            Htm::L1 => 9, Htm::L2 => 10, Htm::L3 => 11,
            Htm::D1 => 12, Htm::D2 => 13, Htm::D3 => 14,
            Htm::B1 => 15, Htm::B2 => 16, Htm::B3 => 17,
        }
    }

    /// The turn with the given index; `None` when it is out of range.
    pub fn try_from(value: usize) -> (r: Option<Htm>)
        ensures
            r is Some <==> value < 18,
            r is Some ==> r->0.idx() == value,
    {
        match value {
            0 => Some(Htm::U1), 1 => Some(Htm::U2), 2 => Some(Htm::U3),
            3 => Some(Htm::R1), 4 => Some(Htm::R2), 5 => Some(Htm::R3),
            6 => Some(Htm::F1), 7 => Some(Htm::F2), 8 => Some(Htm::F3),
            9 => Some(Htm::L1), 10 => Some(Htm::L2), 11 => Some(Htm::L3),
            12 => Some(Htm::D1), 13 => Some(Htm::D2), 14 => Some(Htm::D3),
            15 => Some(Htm::B1), 16 => Some(Htm::B2), 17 => Some(Htm::B3),
            _ => None,
        }
    }

    /// The corner cubie array of this turn.
    pub fn to_corners(self) -> (r: Array<8, 3>)
        ensures
            r@ == corner_move_seq(self.idx()),
            r.wf(),
    {
        corner_move(self.to_usize())
    }

    /// The edge cubie array of this turn.
    pub fn to_edges(self) -> (r: Array<12, 2>)
        ensures
            r@ == edge_move_seq(self.idx()),
            r.wf(),
    {
        edge_move(self.to_usize())
    }
}

} // verus!
verus! {

/// The face turn with index `ix` in the fixed listing.
pub open spec fn htm_of(ix: int) -> Htm {
    if ix == 0 { Htm::U1 } else if ix == 1 { Htm::U2 } else if ix == 2 { Htm::U3 }
    else if ix == 3 { Htm::R1 } else if ix == 4 { Htm::R2 } else if ix == 5 { Htm::R3 }
    else if ix == 6 { Htm::F1 } else if ix == 7 { Htm::F2 } else if ix == 8 { Htm::F3 }
    else if ix == 9 { Htm::L1 } else if ix == 10 { Htm::L2 } else if ix == 11 { Htm::L3 }
    else if ix == 12 { Htm::D1 } else if ix == 13 { Htm::D2 } else if ix == 14 { Htm::D3 }
    else if ix == 15 { Htm::B1 } else if ix == 16 { Htm::B2 } else { Htm::B3 }
}

/// A turn is the turn of its own index: the listing is a bijection.
pub proof fn lemma_htm_of_idx(h: Htm)
    ensures
        htm_of(h.idx()) == h,
{
    match h {
        Htm::U1 => {},
        Htm::U2 => {},
        Htm::U3 => {},
        Htm::R1 => {},
        Htm::R2 => {},
        Htm::R3 => {},
        Htm::F1 => {},
        Htm::F2 => {},
        Htm::F3 => {},
        Htm::L1 => {},
        Htm::L2 => {},
        Htm::L3 => {},
        Htm::D1 => {},
        Htm::D2 => {},
        Htm::D3 => {},
        Htm::B1 => {},
        Htm::B2 => {},
        Htm::B3 => {},
    }
}

/// The index of the turn with index `ix` is `ix` itself.
pub proof fn lemma_idx_of_htm(ix: int)
    requires
        0 <= ix < 18,
    ensures
        htm_of(ix).idx() == ix,
{
}

} // verus!
