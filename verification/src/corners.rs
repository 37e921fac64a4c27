use vstd::prelude::*;

verus! {

use crate::definitions::{Coordinate, o_canon, p_canon, o_val, lehmer, compose};
use crate::metric::{Htm, corner_move, corner_move_seq};
use crate::pruning::Depth;
use crate::tables::{FullTable, FullPruning, pair_index};
use crate::util::pow;

/// How many generators the corner metric uses: the three powers of each of
/// the three faces that move the corner block.
pub const MOVE_COUNT: usize = 9;

/// The corner block as a solver state: the full coordinate of the eight
/// corners. The first nine face turns of the half-turn metric generate its
/// moves.
#[derive(Clone, Copy, Debug, Default, Eq, PartialEq)]
pub struct Cube(pub Coordinate<8, 3>);

impl Cube {
    /// The parts are inside their coordinate spaces.
    pub open spec fn wf(self) -> bool {
        self.0.wf()
    }

    /// Builds a corner state from its coordinate.
    pub fn new(coordinate: Coordinate<8, 3>) -> (r: Self)
        ensures
            r.0 == coordinate,
    {
        Cube(coordinate)
    }

    /// The face turn a corner generator index names.
    pub fn index(ix: usize) -> (r: Htm)
        requires
            ix < 9,
        ensures
            r.idx() == ix,
    {
        Htm::try_from(ix).unwrap()
    }
}

/// The transition table of the corner block under its nine generators.
pub struct Table(pub FullTable<8, 3>);

impl Table {
    /// Well-formedness: the inner table holds the corner arrays of the
    /// first nine face turns.
    pub open spec fn wf(self) -> bool {
        &&& self.0.wf()
        &&& self.0.orientation.gens@.len() == 9
        &&& forall|g: int| 0 <= g < 9
            ==> (#[trigger] self.0.orientation.gens@[g]) == corner_move_seq(g)
    }

    /// Builds the table from the nine corner generators.
    pub fn new() -> (r: Self)
        ensures
            r.wf(),
    {
        proof {
            crate::kociemba::phase1::lemma_co_size();
            crate::util::lemma_fact_12();
            reveal_with_fuel(crate::util::fact, 13);
        }
        let mut gens: Vec<crate::definitions::Array<8, 3>> = Vec::new();
        let mut g: usize = 0;
        while g < 9
            invariant
                g <= 9,
                gens@.len() == g,
                forall|j: int| 0 <= j < g
                    ==> (#[trigger] gens@[j])@ == corner_move_seq(j) && gens@[j].wf(),
            decreases 9 - g,
        {
            gens.push(corner_move(g));
            g = g + 1;
        }
        let inner = FullTable::new(&gens);
        let r = Table(inner);
        proof {
            assert forall|g2: int| 0 <= g2 < 9
                implies (#[trigger] r.0.orientation.gens@[g2]) == corner_move_seq(g2) by {
                assert(r.0.orientation.gens@[g2] == gens@[g2]@);
            }
        }
        r
    }

    /// The corner state that `position` becomes under the generator with
    /// the given index.
    pub fn lookup(&self, position: Cube, permutation_index: usize) -> (r: Cube)
        requires
            self.wf(),
            position.wf(),
            permutation_index < 9,
        ensures
            r.0.0@ == o_val(compose(o_canon(position.0.0@, 8, 3),
                corner_move_seq(permutation_index as int), 3), 3),
            r.0.1@ == lehmer(compose(p_canon(position.0.1@, 8),
                corner_move_seq(permutation_index as int), 3)),
            r.wf(),
    {
        proof {
            crate::kociemba::phase1::lemma_co_size();
        }
        Cube(self.0.lookup(position.0, permutation_index))
    }
}

/// The pruning table of the corner block: a lower bound on the number of
/// generator applications back to the solved corners.
pub struct PruningTable(pub FullPruning<8, 3>);

impl PruningTable {
    /// Well-formedness relative to the transition table the flood used.
    pub open spec fn wf(self, t: &Table) -> bool {
        self.0.wf(&t.0)
    }

    /// Floods the corner space from the solved state.
    pub fn new(table: &Table) -> (r: Self)
        requires
            table.wf(),
        ensures
            r.wf(table),
    {
        proof {
            crate::kociemba::phase1::lemma_co_size();
            reveal_with_fuel(crate::util::fact, 13);
            assert(crate::util::fact(8) == 40320);
            assert(pow(3, 7) * crate::util::fact(8) * 9 == 2187 * 40320 * 9int);
        }
        PruningTable(FullPruning::new(&table.0))
    }

    /// The stored lower bound of a corner state.
    pub fn lookup(&self, position: Cube) -> (r: Depth)
        requires
            position.wf(),
            self.0.table.len_spec() == pow(3, 7) * crate::util::fact(8),
        ensures
            r == self.0.table.depth(pair_index::<8, 3>(position.0.0@, position.0.1@)),
    {
        proof {
            crate::kociemba::phase1::lemma_co_size();
            reveal_with_fuel(crate::util::fact, 13);
            assert(crate::util::fact(8) == 40320);
        }
        self.0.lookup(position.0)
    }
}

} // verus!
