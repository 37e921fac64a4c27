use vstd::prelude::*;

verus! {

use crate::definitions::{
    OrientationCoord, CombinationCoord, o_canon, c_canon, o_val, c_val, compose,
    lemma_o_coord_eq, lemma_c_coord_eq,
};
use crate::metric::{corner_move, edge_move, corner_move_seq, edge_move_seq, Htm, MOVE_COUNT};
use crate::pruning;
use crate::search::{Depth, Search};
use crate::transition;
use crate::util::{pow, binom};

pub type Corners = OrientationCoord<8, 3>;
pub type Edges = OrientationCoord<12, 2>;
pub type Slice = CombinationCoord<12, 4>;

/// The corner-orientation coordinate after one face turn: decode, compose
/// with the turn's corner array, encode.
pub open spec fn co_step(c: int, g: int) -> int {
    o_val(compose(o_canon(c, 8, 3), corner_move_seq(g), 3), 3)
}

/// The edge-orientation coordinate after one face turn.
pub open spec fn eo_step(c: int, g: int) -> int {
    o_val(compose(o_canon(c, 12, 2), edge_move_seq(g), 2), 2)
}

/// The middle-slice combination coordinate after one face turn.
pub open spec fn slice_step(c: int, g: int) -> int {
    c_val(compose(c_canon(c, 12, 4), edge_move_seq(g), 2), 12, 4)
}

/// The number of corner-orientation coordinates, `3^7`.
pub proof fn lemma_co_size()
    ensures
        pow(3, 7) == 2187,
        pow(2, 11) == 2048,
{
    reveal_with_fuel(pow, 12);
}

/// The number of middle-slice combinations, `C(12, 4)`.
pub proof fn lemma_slice_size()
    ensures
        binom(12, 4) == 495,
{
    reveal_with_fuel(binom, 13);
}

/// The first Kociemba phase: corner orientations, edge orientations, and
/// the combination of the four middle-slice edges. The goal of the phase is
/// the subgroup where all orientations are zero and the slice edges sit in
/// the slice.
#[derive(Clone, Copy, Debug, Default, Eq, PartialEq)]
pub struct Cube {
    pub corners: Corners,
    pub edges: Edges,
    pub slice: Slice,
}

impl Cube {
    /// Whether this state is the phase-1 goal.
    pub open spec fn solved_spec(self) -> bool {
        self.corners@ == 0 && self.edges@ == 0 && self.slice@ == binom(12, 4) - 1
    }

    /// The parts are inside their coordinate spaces.
    pub open spec fn wf(self) -> bool {
        self.corners.wf() && self.edges.wf() && self.slice.wf()
    }

    /// Builds a phase-1 state from its three coordinates.
    pub fn new(corners: Corners, edges: Edges, slice: Slice) -> (r: Self)
        ensures
            r.corners == corners,
            r.edges == edges,
            r.slice == slice,
    {
        Self { corners, edges, slice }
    }

    /// The transition tables of the phase.
    pub fn create_table() -> (r: Table)
        ensures
            r.wf(),
    {
        Table::new()
    }

    /// The pruning tables of the phase.
    pub fn create_pruning_table(move_table: &Table) -> (r: PruningTable)
        requires
            move_table.wf(),
        ensures
            r.wf(move_table),
    {
        PruningTable::new(move_table)
    }

    /// The face turn a phase-1 generator index names.
    pub fn gen_to_htm(gen: usize) -> (r: Htm)
        requires
            gen < 18,
        ensures
            r.idx() == gen,
            r == crate::metric::htm_of(gen as int),
    {
        let r = Htm::try_from(gen).unwrap();
        proof {
            crate::metric::lemma_htm_of_idx(r);
        }
        r
    }
}

/// The three phase-1 transition tables, one per coordinate.
pub struct Table {
    pub corners: transition::Table,
    pub edges: transition::Table,
    pub slice: transition::Table,
}

impl Table {
    /// Well-formedness: each sub-table covers its space under the eighteen
    /// generators and holds the decode-compose-encode transition.
    pub open spec fn wf(self) -> bool {
        &&& self.corners.wf()
        &&& self.corners.size_spec() == pow(3, 7)
        &&& self.corners.gens_spec() == 18
        &&& self.edges.wf()
        &&& self.edges.size_spec() == pow(2, 11)
        &&& self.edges.gens_spec() == 18
        &&& self.slice.wf()
        &&& self.slice.size_spec() == binom(12, 4)
        &&& self.slice.gens_spec() == 18
        &&& forall|c: int, g: int| 0 <= c < pow(3, 7) && 0 <= g < 18
            ==> #[trigger] self.corners.entry(c, g) == co_step(c, g)
        &&& forall|c: int, g: int| 0 <= c < pow(2, 11) && 0 <= g < 18
            ==> #[trigger] self.edges.entry(c, g) == eo_step(c, g)
        &&& forall|c: int, g: int| 0 <= c < binom(12, 4) && 0 <= g < 18
            ==> #[trigger] self.slice.entry(c, g) == slice_step(c, g)
    }

    /// Builds the three tables by visiting every coordinate of each space
    /// under every generator.
    pub fn new() -> (r: Self)
        ensures
            r.wf(),
    {
        proof {
            lemma_co_size();
            lemma_slice_size();
        }
        // corner orientations
        let co_all = Corners::all();
        let mut co_entries: Vec<u32> = Vec::new();
        let mut c: usize = 0;
        while c < co_all.len()
            invariant
                c <= co_all@.len(),
                co_all@.len() == pow(3, 7) == 2187,
                forall|l: int| 0 <= l < co_all@.len()
                    ==> (#[trigger] co_all@[l])@ == l && co_all@[l].wf(),
                co_entries@.len() == c * 18,
                forall|i: int| 0 <= i < co_entries@.len() ==> (#[trigger] co_entries@[i]) < 2187,
                forall|x: int, g: int| 0 <= x < c && 0 <= g < 18
                    ==> co_entries@[x * 18 + g] == co_step(x, g),
            decreases co_all@.len() - c,
        {
            let arr = co_all[c].array();
            let mut g: usize = 0;
            while g < 18
                invariant
                    g <= 18,
                    c < co_all@.len(),
                    co_all@.len() == pow(3, 7) == 2187,
                    forall|l: int| 0 <= l < co_all@.len()
                        ==> (#[trigger] co_all@[l])@ == l && co_all@[l].wf(),
                    arr.wf(),
                    arr@ == o_canon(c as int, 8, 3),
                    co_entries@.len() == c * 18 + g,
                    forall|i: int| 0 <= i < co_entries@.len() ==> (#[trigger] co_entries@[i]) < 2187,
                    forall|x: int, g2: int| 0 <= x < c && 0 <= g2 < 18
                        ==> co_entries@[x * 18 + g2] == co_step(x, g2),
                    forall|g2: int| 0 <= g2 < g
                        ==> co_entries@[c * 18 + g2] == co_step(c as int, g2),
            decreases 18 - g,
            {
                proof {
                    lemma_co_size();
                }
                let m = corner_move(g);
                let next = arr.permute(&m).o_coordinate();
                co_entries.push(next.index() as u32);
                g = g + 1;
            }
            c = c + 1;
        }
        proof {
            assert(co_entries@.len() == 2187 * 18);
        }
        let co_table = transition::Table::new(2187, 18, co_entries);

        // edge orientations
        let eo_all = Edges::all();
        let mut eo_entries: Vec<u32> = Vec::new();
        let mut c: usize = 0;
        while c < eo_all.len()
            invariant
                c <= eo_all@.len(),
                eo_all@.len() == pow(2, 11) == 2048,
                forall|l: int| 0 <= l < eo_all@.len()
                    ==> (#[trigger] eo_all@[l])@ == l && eo_all@[l].wf(),
                eo_entries@.len() == c * 18,
                forall|i: int| 0 <= i < eo_entries@.len() ==> (#[trigger] eo_entries@[i]) < 2048,
                forall|x: int, g: int| 0 <= x < c && 0 <= g < 18
                    ==> eo_entries@[x * 18 + g] == eo_step(x, g),
            decreases eo_all@.len() - c,
        {
            let arr = eo_all[c].array();
            let mut g: usize = 0;
            while g < 18
                invariant
                    g <= 18,
                    c < eo_all@.len(),
                    eo_all@.len() == pow(2, 11) == 2048,
                    forall|l: int| 0 <= l < eo_all@.len()
                        ==> (#[trigger] eo_all@[l])@ == l && eo_all@[l].wf(),
                    arr.wf(),
                    arr@ == o_canon(c as int, 12, 2),
                    eo_entries@.len() == c * 18 + g,
                    forall|i: int| 0 <= i < eo_entries@.len() ==> (#[trigger] eo_entries@[i]) < 2048,
                    forall|x: int, g2: int| 0 <= x < c && 0 <= g2 < 18
                        ==> eo_entries@[x * 18 + g2] == eo_step(x, g2),
                    forall|g2: int| 0 <= g2 < g
                        ==> eo_entries@[c * 18 + g2] == eo_step(c as int, g2),
                decreases 18 - g,
            {
                proof {
                    lemma_co_size();
                }
                let m = edge_move(g);
                let next = arr.permute(&m).o_coordinate();
                eo_entries.push(next.index() as u32);
                g = g + 1;
            }
            c = c + 1;
        }
        proof {
            assert(eo_entries@.len() == 2048 * 18);
        }
        let eo_table = transition::Table::new(2048, 18, eo_entries);

        // middle-slice combinations
        let sl_all = Slice::all();
        let mut sl_entries: Vec<u32> = Vec::new();
        let mut c: usize = 0;
        while c < sl_all.len()
            invariant
                c <= sl_all@.len(),
                sl_all@.len() == binom(12, 4) == 495,
                forall|l: int| 0 <= l < sl_all@.len()
                    ==> (#[trigger] sl_all@[l])@ == l && sl_all@[l].wf(),
                sl_entries@.len() == c * 18,
                forall|i: int| 0 <= i < sl_entries@.len() ==> (#[trigger] sl_entries@[i]) < 495,
                forall|x: int, g: int| 0 <= x < c && 0 <= g < 18
                    ==> sl_entries@[x * 18 + g] == slice_step(x, g),
            decreases sl_all@.len() - c,
        {
            let arr = sl_all[c].array::<2>();
            let mut g: usize = 0;
            while g < 18
                invariant
                    g <= 18,
                    c < sl_all@.len(),
                    sl_all@.len() == binom(12, 4) == 495,
                    forall|l: int| 0 <= l < sl_all@.len()
                        ==> (#[trigger] sl_all@[l])@ == l && sl_all@[l].wf(),
                    arr.wf(),
                    arr@ == c_canon(c as int, 12, 4),
                    sl_entries@.len() == c * 18 + g,
                    forall|i: int| 0 <= i < sl_entries@.len() ==> (#[trigger] sl_entries@[i]) < 495,
                    forall|x: int, g2: int| 0 <= x < c && 0 <= g2 < 18
                        ==> sl_entries@[x * 18 + g2] == slice_step(x, g2),
                    forall|g2: int| 0 <= g2 < g
                        ==> sl_entries@[c * 18 + g2] == slice_step(c as int, g2),
                decreases 18 - g,
            {
                proof {
                    lemma_slice_size();
                }
                let m = edge_move(g);
                let next = arr.permute(&m).c_coordinate::<4>();
                sl_entries.push(next.index() as u32);
                g = g + 1;
            }
            c = c + 1;
        }
        proof {
            assert(sl_entries@.len() == 495 * 18);
        }
        let sl_table = transition::Table::new(495, 18, sl_entries);

        proof {
            lemma_co_size();
            lemma_slice_size();
        }
        Table { corners: co_table, edges: eo_table, slice: sl_table }
    }

    /// The phase-1 state that `cube` becomes under the face turn with the
    /// given generator index.
    pub fn lookup(&self, cube: Cube, index: usize) -> (r: Cube)
        requires
            self.wf(),
            cube.wf(),
            index < 18,
        ensures
            r.corners@ == co_step(cube.corners@, index as int),
            r.edges@ == eo_step(cube.edges@, index as int),
            r.slice@ == slice_step(cube.slice@, index as int),
            r.wf(),
    {
        proof {
            lemma_co_size();
            lemma_slice_size();
        }
        let co = self.corners.lookup(cube.corners.index(), index);
        let eo = self.edges.lookup(cube.edges.index(), index);
        let sl = self.slice.lookup(cube.slice.index(), index);
        Cube {
            corners: Corners::from_index(co),
            edges: Edges::from_index(eo),
            slice: Slice::from_index(sl),
        }
    }

}

/// The three phase-1 pruning tables, one per coordinate; the heuristic of a
/// state is the largest of its three lower bounds.
pub struct PruningTable {
    pub corners: pruning::Table,
    pub edges: pruning::Table,
    pub slice: pruning::Table,
}

impl PruningTable {
    /// Well-formedness relative to the transition tables the flood used.
    pub open spec fn wf(self, t: &Table) -> bool {
        &&& self.corners.wf()
        &&& self.corners.len_spec() == pow(3, 7)
        &&& self.edges.wf()
        &&& self.edges.len_spec() == pow(2, 11)
        &&& self.slice.wf()
        &&& self.slice.len_spec() == binom(12, 4)
        &&& self.corners.depth(0) == 0
        &&& self.edges.depth(0) == 0
        &&& self.slice.depth(binom(12, 4) - 1) == 0
        &&& forall|x: int, d: int|
            0 <= x < pow(3, 7) && 0 <= d <= 253
                && #[trigger] transition::reaches(t.corners, 0, x, d)
            ==> self.corners.depth(x) <= d
        &&& forall|x: int, d: int|
            0 <= x < pow(2, 11) && 0 <= d <= 253
                && #[trigger] transition::reaches(t.edges, 0, x, d)
            ==> self.edges.depth(x) <= d
        &&& forall|x: int, d: int|
            0 <= x < binom(12, 4) && 0 <= d <= 253
                && #[trigger] transition::reaches(t.slice, binom(12, 4) - 1, x, d)
            ==> self.slice.depth(x) <= d
        &&& forall|x: int| 0 <= x < pow(3, 7) && #[trigger] self.corners.depth(x) > 0
            ==> transition::reaches(t.corners, 0, x, self.corners.depth(x))
        &&& forall|x: int| 0 <= x < pow(2, 11) && #[trigger] self.edges.depth(x) > 0
            ==> transition::reaches(t.edges, 0, x, self.edges.depth(x))
        &&& forall|x: int| 0 <= x < binom(12, 4) && #[trigger] self.slice.depth(x) > 0
            ==> transition::reaches(t.slice, binom(12, 4) - 1, x, self.slice.depth(x))
        &&& forall|x: int| 0 <= x < pow(3, 7) && #[trigger] self.corners.depth(x) == 0 && x != 0
            ==> !transition::reaches(t.corners, 0, x, 253)
        &&& forall|x: int| 0 <= x < pow(2, 11) && #[trigger] self.edges.depth(x) == 0 && x != 0
            ==> !transition::reaches(t.edges, 0, x, 253)
        &&& forall|x: int|
            0 <= x < binom(12, 4) && #[trigger] self.slice.depth(x) == 0 && x != binom(12, 4) - 1
            ==> !transition::reaches(t.slice, binom(12, 4) - 1, x, 253)
    }

    /// Floods each coordinate space from its goal.
    pub fn new(t: &Table) -> (r: Self)
        requires
            t.wf(),
        ensures
            r.wf(t),
    {
        proof {
            lemma_co_size();
            lemma_slice_size();
        }
        let goal_slice = Slice::bound() - 1;
        PruningTable {
            corners: pruning::Table::new(&t.corners, 0),
            edges: pruning::Table::new(&t.edges, 0),
            slice: pruning::Table::new(&t.slice, goal_slice),
        }
    }

    /// The heuristic of a phase-1 state: the largest of its three bounds.
    pub fn lookup(&self, cube: Cube) -> (r: Depth)
        requires
            cube.wf(),
            self.corners.len_spec() == pow(3, 7),
            self.edges.len_spec() == pow(2, 11),
            self.slice.len_spec() == binom(12, 4),
        ensures
            r == vstd::math::max(
                vstd::math::max(
                    self.corners.depth(cube.corners@),
                    self.edges.depth(cube.edges@),
                ),
                self.slice.depth(cube.slice@),
            ),
    {
        proof {
            lemma_co_size();
            lemma_slice_size();
        }
        let a = self.corners.lookup(cube.corners.index());
        let b = self.edges.lookup(cube.edges.index());
        let c = self.slice.lookup(cube.slice.index());
        let ab = if a >= b { a } else { b };
        if ab >= c { ab } else { c }
    }
}

impl Search for Cube {
    type HeuristicData = PruningTable;
    type TransitionData = Table;

    open spec fn is_goal_spec(self) -> bool {
        self.solved_spec()
    }

    open spec fn inv(self, td: &Table) -> bool {
        self.wf() && td.wf()
    }

    open spec fn hinv(self, hd: &PruningTable) -> bool {
        self.wf()
            && hd.corners.len_spec() == pow(3, 7)
            && hd.edges.len_spec() == pow(2, 11)
            && hd.slice.len_spec() == binom(12, 4)
    }

    open spec fn compat(hd: &PruningTable, td: &Table) -> bool {
        td.wf()
            && hd.corners.len_spec() == pow(3, 7)
            && hd.edges.len_spec() == pow(2, 11)
            && hd.slice.len_spec() == binom(12, 4)
    }

    open spec fn h_spec(self, hd: &PruningTable) -> int {
        vstd::math::max(
            vstd::math::max(hd.corners.depth(self.corners@), hd.edges.depth(self.edges@)),
            hd.slice.depth(self.slice@),
        )
    }

    open spec fn gens_spec(td: &Table) -> int {
        18
    }

    open spec fn step_spec(self, td: &Table, g: int) -> Self {
        Cube {
            corners: crate::definitions::o_coord_spec(co_step(self.corners@, g)),
            edges: crate::definitions::o_coord_spec(eo_step(self.edges@, g)),
            slice: crate::definitions::c_coord_spec(slice_step(self.slice@, g)),
        }
    }

    proof fn lemma_step_keeps(self, hd: &PruningTable, td: &Table, g: int) {
        lemma_co_size();
        lemma_slice_size();
        assert(td.corners.entry(self.corners@, g) == co_step(self.corners@, g));
        assert(td.edges.entry(self.edges@, g) == eo_step(self.edges@, g));
        assert(td.slice.entry(self.slice@, g) == slice_step(self.slice@, g));
        crate::definitions::lemma_o_coord_spec_view::<8, 3>(co_step(self.corners@, g));
        crate::definitions::lemma_o_coord_spec_view::<12, 2>(eo_step(self.edges@, g));
        crate::definitions::lemma_c_coord_spec_view::<12, 4>(slice_step(self.slice@, g));
    }

    fn heuristic(self, hd: &PruningTable) -> (r: Depth) {
        hd.lookup(self)
    }

    fn step(self, td: &Table, g: usize) -> (r: Self) {
        let r = td.lookup(self, g);
        proof {
            lemma_co_size();
            lemma_slice_size();
            crate::definitions::lemma_o_coord_spec_view::<8, 3>(co_step(self.corners@, g as int));
            crate::definitions::lemma_o_coord_spec_view::<12, 2>(eo_step(self.edges@, g as int));
            crate::definitions::lemma_c_coord_spec_view::<12, 4>(slice_step(self.slice@, g as int));
            lemma_o_coord_eq(r.corners, self.step_spec(td, g as int).corners);
            lemma_o_coord_eq(r.edges, self.step_spec(td, g as int).edges);
            lemma_c_coord_eq(r.slice, self.step_spec(td, g as int).slice);
        }
        r
    }

    fn gens(td: &Table) -> (r: usize) {
        18
    }

    fn is_goal(self) -> (r: bool) {
        proof {
            lemma_slice_size();
        }
        self.corners.index() == 0 && self.edges.index() == 0 && self.slice.index() == 494
    }
}

} // verus!
