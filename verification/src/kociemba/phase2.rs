use vstd::prelude::*;

verus! {

use crate::definitions::{
    Array, PermutationCoord, is_valid, p_canon, lehmer, compose, lemma_p_coord_eq,
};
use crate::metric::Htm;
use crate::pruning;
use crate::search::{Depth, Search};
use crate::transition;
use crate::util::{fact, lemma_fact_monotone, lemma_fact_12};

pub type Corners = PermutationCoord<8>;
pub type Edges = PermutationCoord<8>;
pub type Slice = PermutationCoord<4>;

/// How many generators preserve the phase-2 subgroup.
pub const MOVE_COUNT: usize = 10;

/// The corner permutation of the phase-2 generator with index `ix`.
pub open spec fn corner_move_seq(ix: int) -> Seq<(u8, u8)> {
    if ix == 0 {
        seq![(3, 0), (0, 0), (1, 0), (2, 0), (4, 0), (5, 0), (6, 0), (7, 0)]
    } else if ix == 1 {
        seq![(2, 0), (3, 0), (0, 0), (1, 0), (4, 0), (5, 0), (6, 0), (7, 0)]
    } else if ix == 2 {
        seq![(1, 0), (2, 0), (3, 0), (0, 0), (4, 0), (5, 0), (6, 0), (7, 0)]
    } else if ix == 3 {
        seq![(0, 0), (1, 0), (2, 0), (3, 0), (5, 0), (6, 0), (7, 0), (4, 0)]
    } else if ix == 4 {
        seq![(0, 0), (1, 0), (2, 0), (3, 0), (6, 0), (7, 0), (4, 0), (5, 0)]
    } else if ix == 5 {
        seq![(0, 0), (1, 0), (2, 0), (3, 0), (7, 0), (4, 0), (5, 0), (6, 0)]
    } else if ix == 6 {
        seq![(7, 0), (1, 0), (2, 0), (4, 0), (3, 0), (5, 0), (6, 0), (0, 0)]
    } else if ix == 7 {
        seq![(5, 0), (4, 0), (2, 0), (3, 0), (1, 0), (0, 0), (6, 0), (7, 0)]
    } else if ix == 8 {
        seq![(0, 0), (6, 0), (5, 0), (3, 0), (4, 0), (2, 0), (1, 0), (7, 0)]
    } else {
        seq![(0, 0), (1, 0), (7, 0), (6, 0), (4, 0), (5, 0), (3, 0), (2, 0)]
    }
}

/// The permutation of the eight top- and bottom-layer edges under the phase-2 generator with index `ix`.
pub open spec fn edge_move_seq(ix: int) -> Seq<(u8, u8)> {
    if ix == 0 {
        seq![(3, 0), (0, 0), (1, 0), (2, 0), (4, 0), (5, 0), (6, 0), (7, 0)]
    } else if ix == 1 {
        seq![(2, 0), (3, 0), (0, 0), (1, 0), (4, 0), (5, 0), (6, 0), (7, 0)]
    } else if ix == 2 {
        seq![(1, 0), (2, 0), (3, 0), (0, 0), (4, 0), (5, 0), (6, 0), (7, 0)]
    } else if ix == 3 {
        seq![(0, 0), (1, 0), (2, 0), (3, 0), (5, 0), (6, 0), (7, 0), (4, 0)]
    } else if ix == 4 {
        seq![(0, 0), (1, 0), (2, 0), (3, 0), (6, 0), (7, 0), (4, 0), (5, 0)]
    } else if ix == 5 {
        seq![(0, 0), (1, 0), (2, 0), (3, 0), (7, 0), (4, 0), (5, 0), (6, 0)]
    } else if ix == 6 {
        seq![(4, 0), (1, 0), (2, 0), (3, 0), (0, 0), (5, 0), (6, 0), (7, 0)]
    } else if ix == 7 {
        seq![(0, 0), (5, 0), (2, 0), (3, 0), (4, 0), (1, 0), (6, 0), (7, 0)]
    } else if ix == 8 {
        seq![(0, 0), (1, 0), (6, 0), (3, 0), (4, 0), (5, 0), (2, 0), (7, 0)]
    } else {
        seq![(0, 0), (1, 0), (2, 0), (7, 0), (4, 0), (5, 0), (6, 0), (3, 0)]
    }
}

/// The permutation of the four middle-slice edges under the phase-2 generator with index `ix`.
pub open spec fn slice_move_seq(ix: int) -> Seq<(u8, u8)> {
    if ix == 0 {
        seq![(0, 0), (1, 0), (2, 0), (3, 0)]
    } else if ix == 1 {
        seq![(0, 0), (1, 0), (2, 0), (3, 0)]
    } else if ix == 2 {
        seq![(0, 0), (1, 0), (2, 0), (3, 0)]
    } else if ix == 3 {
        seq![(0, 0), (1, 0), (2, 0), (3, 0)]
    } else if ix == 4 {
        seq![(0, 0), (1, 0), (2, 0), (3, 0)]
    } else if ix == 5 {
        seq![(0, 0), (1, 0), (2, 0), (3, 0)]
    } else if ix == 6 {
        seq![(3, 0), (1, 0), (2, 0), (0, 0)]
    } else if ix == 7 {
        seq![(1, 0), (0, 0), (2, 0), (3, 0)]
    } else if ix == 8 {
        seq![(0, 0), (2, 0), (1, 0), (3, 0)]
    } else {
        seq![(0, 0), (1, 0), (3, 0), (2, 0)]
    }
}

/// Builds the vector of the given eight pairs.
fn mk8(xs: [(u8, u8); 8]) -> (r: Vec<(u8, u8)>)
    ensures
        r@ =~= seq![xs[0], xs[1], xs[2], xs[3], xs[4], xs[5], xs[6], xs[7]],
{
    let mut v: Vec<(u8, u8)> = Vec::new();
    let mut i: usize = 0;
    while i < 8
        invariant
            i <= 8,
            v@.len() == i,
            forall|j: int| 0 <= j < i ==> v@[j] == xs@[j],
        decreases 8 - i,
    {
        v.push(xs[i]);
        i = i + 1;
    }
    v
}

/// Builds the vector of the given four pairs.
fn mk4(xs: [(u8, u8); 4]) -> (r: Vec<(u8, u8)>)
    ensures
        r@ =~= seq![xs[0], xs[1], xs[2], xs[3]],
{
    let mut v: Vec<(u8, u8)> = Vec::new();
    let mut i: usize = 0;
    while i < 4
        invariant
            i <= 4,
            v@.len() == i,
            forall|j: int| 0 <= j < i ==> v@[j] == xs@[j],
        decreases 4 - i,
    {
        v.push(xs[i]);
        i = i + 1;
    }
    v
}

/// The corner permutation of the phase-2 generator with index `ix`.
pub fn corner_move(ix: usize) -> (r: Array<8, 1>)
    requires
        ix < 10,
    ensures
        r@ == corner_move_seq(ix as int),
        r.wf(),
{
    let v: Vec<(u8, u8)> =
    if ix == 0 {
        mk8([(3, 0), (0, 0), (1, 0), (2, 0), (4, 0), (5, 0), (6, 0), (7, 0)])
    } else if ix == 1 {
        mk8([(2, 0), (3, 0), (0, 0), (1, 0), (4, 0), (5, 0), (6, 0), (7, 0)])
    } else if ix == 2 {
        mk8([(1, 0), (2, 0), (3, 0), (0, 0), (4, 0), (5, 0), (6, 0), (7, 0)])
    } else if ix == 3 {
        mk8([(0, 0), (1, 0), (2, 0), (3, 0), (5, 0), (6, 0), (7, 0), (4, 0)])
    } else if ix == 4 {
        mk8([(0, 0), (1, 0), (2, 0), (3, 0), (6, 0), (7, 0), (4, 0), (5, 0)])
    } else if ix == 5 {
        mk8([(0, 0), (1, 0), (2, 0), (3, 0), (7, 0), (4, 0), (5, 0), (6, 0)])
    } else if ix == 6 {
        mk8([(7, 0), (1, 0), (2, 0), (4, 0), (3, 0), (5, 0), (6, 0), (0, 0)])
    } else if ix == 7 {
        mk8([(5, 0), (4, 0), (2, 0), (3, 0), (1, 0), (0, 0), (6, 0), (7, 0)])
    } else if ix == 8 {
        mk8([(0, 0), (6, 0), (5, 0), (3, 0), (4, 0), (2, 0), (1, 0), (7, 0)])
    } else {
        mk8([(0, 0), (1, 0), (7, 0), (6, 0), (4, 0), (5, 0), (3, 0), (2, 0)])
    };
    proof {
        assert(v@ =~= corner_move_seq(ix as int));
        assert(is_valid(corner_move_seq(ix as int), 8, 1));
    }
    Array::new(v)
}

/// The top- and bottom-edge permutation of the phase-2 generator with index `ix`.
pub fn edge_move(ix: usize) -> (r: Array<8, 1>)
    requires
        ix < 10,
    ensures
        r@ == edge_move_seq(ix as int),
        r.wf(),
{
    let v: Vec<(u8, u8)> =
    if ix == 0 {
        mk8([(3, 0), (0, 0), (1, 0), (2, 0), (4, 0), (5, 0), (6, 0), (7, 0)])
    } else if ix == 1 {
        mk8([(2, 0), (3, 0), (0, 0), (1, 0), (4, 0), (5, 0), (6, 0), (7, 0)])
    } else if ix == 2 {
        mk8([(1, 0), (2, 0), (3, 0), (0, 0), (4, 0), (5, 0), (6, 0), (7, 0)])
    } else if ix == 3 {
        mk8([(0, 0), (1, 0), (2, 0), (3, 0), (5, 0), (6, 0), (7, 0), (4, 0)])
    } else if ix == 4 {
        mk8([(0, 0), (1, 0), (2, 0), (3, 0), (6, 0), (7, 0), (4, 0), (5, 0)])
    } else if ix == 5 {
        mk8([(0, 0), (1, 0), (2, 0), (3, 0), (7, 0), (4, 0), (5, 0), (6, 0)])
    } else if ix == 6 {
        mk8([(4, 0), (1, 0), (2, 0), (3, 0), (0, 0), (5, 0), (6, 0), (7, 0)])
    } else if ix == 7 {
        mk8([(0, 0), (5, 0), (2, 0), (3, 0), (4, 0), (1, 0), (6, 0), (7, 0)])
    } else if ix == 8 {
        mk8([(0, 0), (1, 0), (6, 0), (3, 0), (4, 0), (5, 0), (2, 0), (7, 0)])
    } else {
        mk8([(0, 0), (1, 0), (2, 0), (7, 0), (4, 0), (5, 0), (6, 0), (3, 0)])
    };
    proof {
        assert(v@ =~= edge_move_seq(ix as int));
        assert(is_valid(edge_move_seq(ix as int), 8, 1));
    }
    Array::new(v)
}

/// The middle-slice permutation of the phase-2 generator with index `ix`.
pub fn slice_move(ix: usize) -> (r: Array<4, 1>)
    requires
        ix < 10,
    ensures
        r@ == slice_move_seq(ix as int),
        r.wf(),
{
    let v: Vec<(u8, u8)> =
    if ix == 0 {
        mk4([(0, 0), (1, 0), (2, 0), (3, 0)])
    } else if ix == 1 {
        mk4([(0, 0), (1, 0), (2, 0), (3, 0)])
    } else if ix == 2 {
        mk4([(0, 0), (1, 0), (2, 0), (3, 0)])
    } else if ix == 3 {
        mk4([(0, 0), (1, 0), (2, 0), (3, 0)])
    } else if ix == 4 {
        mk4([(0, 0), (1, 0), (2, 0), (3, 0)])
    } else if ix == 5 {
        mk4([(0, 0), (1, 0), (2, 0), (3, 0)])
    } else if ix == 6 {
        mk4([(3, 0), (1, 0), (2, 0), (0, 0)])
    } else if ix == 7 {
        mk4([(1, 0), (0, 0), (2, 0), (3, 0)])
    } else if ix == 8 {
        mk4([(0, 0), (2, 0), (1, 0), (3, 0)])
    } else {
        mk4([(0, 0), (1, 0), (3, 0), (2, 0)])
    };
    proof {
        assert(v@ =~= slice_move_seq(ix as int));
        assert(is_valid(slice_move_seq(ix as int), 4, 1));
    }
    Array::new(v)
}

/// The corner-permutation coordinate after one phase-2 generator.
pub open spec fn cp_step(c: int, g: int) -> int {
    lehmer(compose(p_canon(c, 8), corner_move_seq(g), 1))
}

/// The edge-permutation coordinate after one phase-2 generator.
pub open spec fn ep_step(c: int, g: int) -> int {
    lehmer(compose(p_canon(c, 8), edge_move_seq(g), 1))
}

/// The slice-permutation coordinate after one phase-2 generator.
pub open spec fn sp_step(c: int, g: int) -> int {
    lehmer(compose(p_canon(c, 4), slice_move_seq(g), 1))
}

/// The sizes of the phase-2 coordinate spaces.
pub proof fn lemma_p2_sizes()
    ensures
        fact(8) == 40320,
        fact(4) == 24,
{
    reveal_with_fuel(fact, 13);
    assert(fact(4) == 24);
    assert(fact(6) == 720);
    assert(fact(8) == 40320);
}

/// The second Kociemba phase: corner permutation, top- and bottom-edge
/// permutation, and middle-slice permutation, solved with the ten
/// generators that preserve the phase-2 subgroup. The goal is the identity
/// of all three.
#[derive(Clone, Copy, Debug, Default, Eq, PartialEq)]
pub struct Cube {
    pub corners: Corners,
    pub edges: Edges,
    pub slice: Slice,
}

impl Cube {
    /// Whether this state is the phase-2 goal.
    pub open spec fn solved_spec(self) -> bool {
        self.corners@ == 0 && self.edges@ == 0 && self.slice@ == 0
    }

    /// The parts are inside their coordinate spaces.
    pub open spec fn wf(self) -> bool {
        self.corners.wf() && self.edges.wf() && self.slice.wf()
    }

    /// Builds a phase-2 state from its three coordinates.
    pub fn new(corners: Corners, edges: Edges, slice: Slice) -> (r: Self)
        ensures
            r.corners == corners,
            r.edges == edges,
            r.slice == slice,
    {
        Self { corners, edges, slice }
    }

    /// The transition tables of the phase.
    pub fn create_table() -> (r: Table)
        ensures
            r.wf(),
    {
        Table::new()
    }

    /// The pruning tables of the phase.
    pub fn create_pruning_table(move_table: &Table) -> (r: PruningTable)
        requires
            move_table.wf(),
        ensures
            r.wf(move_table),
    {
        PruningTable::new(move_table)
    }

    /// The face turn a phase-2 generator index names.
    pub fn face_turn(value: usize) -> (r: Htm)
        requires
            value < 10,
        ensures
            r.idx() == gen_htm_index(value as int),
    {
        if value == 0 { Htm::U1 }
        else if value == 1 { Htm::U2 }
        else if value == 2 { Htm::U3 }
        else if value == 3 { Htm::D1 }
        else if value == 4 { Htm::D2 }
        else if value == 5 { Htm::D3 }
        else if value == 6 { Htm::R2 }
        else if value == 7 { Htm::F2 }
        else if value == 8 { Htm::L2 }
        else { Htm::B2 }
    }

    /// The face turn a phase-2 generator index names; `face_turn` under its
    /// phase-1 name.
    pub fn gen_to_htm(value: usize) -> (r: Htm)
        requires
            value < 10,
        ensures
            r.idx() == gen_htm_index(value as int),
    {
        Self::face_turn(value)
    }
}

/// The half-turn-metric index of the phase-2 generator with index `g`.
pub open spec fn gen_htm_index(g: int) -> int {
    if g == 0 { 0 } else if g == 1 { 1 } else if g == 2 { 2 }
    else if g == 3 { 12 } else if g == 4 { 13 } else if g == 5 { 14 }
    else if g == 6 { 4 } else if g == 7 { 7 } else if g == 8 { 10 }
    else { 16 }
}

/// The three phase-2 transition tables, one per coordinate.
pub struct Table {
    pub corners: transition::Table,
    pub edges: transition::Table,
    pub slice: transition::Table,
}

impl Table {
    /// Well-formedness: each sub-table covers its space under the ten
    /// generators and holds the decode-compose-encode transition.
    pub open spec fn wf(self) -> bool {
        &&& self.corners.wf()
        &&& self.corners.size_spec() == fact(8)
        &&& self.corners.gens_spec() == 10
        &&& self.edges.wf()
        &&& self.edges.size_spec() == fact(8)
        &&& self.edges.gens_spec() == 10
        &&& self.slice.wf()
        &&& self.slice.size_spec() == fact(4)
        &&& self.slice.gens_spec() == 10
        &&& forall|c: int, g: int| 0 <= c < fact(8) && 0 <= g < 10
            ==> #[trigger] self.corners.entry(c, g) == cp_step(c, g)
        &&& forall|c: int, g: int| 0 <= c < fact(8) && 0 <= g < 10
            ==> #[trigger] self.edges.entry(c, g) == ep_step(c, g)
        &&& forall|c: int, g: int| 0 <= c < fact(4) && 0 <= g < 10
            ==> #[trigger] self.slice.entry(c, g) == sp_step(c, g)
    }

    /// Builds the three tables by visiting every coordinate of each space
    /// under every generator.
    pub fn new() -> (r: Self)
        ensures
            r.wf(),
    {
        proof {
            lemma_p2_sizes();
        }
        let cp_table = build_perm8_table(true);
        let ep_table = build_perm8_table(false);

        let sl_all = Slice::all();
        let mut sl_entries: Vec<u32> = Vec::new();
        let mut c: usize = 0;
        while c < sl_all.len()
            invariant
                c <= sl_all@.len(),
                sl_all@.len() == fact(4) == 24,
                forall|l: int| 0 <= l < sl_all@.len()
                    ==> (#[trigger] sl_all@[l])@ == l && sl_all@[l].wf(),
                sl_entries@.len() == c * 10,
                forall|i: int| 0 <= i < sl_entries@.len() ==> (#[trigger] sl_entries@[i]) < 24,
                forall|x: int, g: int| 0 <= x < c && 0 <= g < 10
                    ==> sl_entries@[x * 10 + g] == sp_step(x, g),
            decreases sl_all@.len() - c,
        {
            let arr = sl_all[c].array::<1>();
            let mut g: usize = 0;
            while g < 10
                invariant
                    g <= 10,
                    c < sl_all@.len(),
                    sl_all@.len() == fact(4) == 24,
                    forall|l: int| 0 <= l < sl_all@.len()
                        ==> (#[trigger] sl_all@[l])@ == l && sl_all@[l].wf(),
                    arr.wf(),
                    forall|i: int| 0 <= i < 4 ==> (#[trigger] arr@[i]) == p_canon(c as int, 4)[i],
                    sl_entries@.len() == c * 10 + g,
                    forall|i: int| 0 <= i < sl_entries@.len() ==> (#[trigger] sl_entries@[i]) < 24,
                    forall|x: int, g2: int| 0 <= x < c && 0 <= g2 < 10
                        ==> sl_entries@[x * 10 + g2] == sp_step(x, g2),
                    forall|g2: int| 0 <= g2 < g
                        ==> sl_entries@[c * 10 + g2] == sp_step(c as int, g2),
                decreases 10 - g,
            {
                proof {
                    lemma_p2_sizes();
                    assert(arr@ =~= p_canon(c as int, 4));
                }
                let m = slice_move(g);
                let next = arr.permute(&m).p_coordinate();
                sl_entries.push(next.index() as u32);
                g = g + 1;
            }
            c = c + 1;
        }
        proof {
            assert(sl_entries@.len() == 24 * 10);
        }
        let sl_table = transition::Table::new(24, 10, sl_entries);
        proof {
            lemma_p2_sizes();
        }
        Table { corners: cp_table, edges: ep_table, slice: sl_table }
    }

    /// The phase-2 state that `cube` becomes under the generator with the
    /// given index.
    pub fn lookup(&self, cube: Cube, index: usize) -> (r: Cube)
        requires
            self.wf(),
            cube.wf(),
            index < 10,
        ensures
            r.corners@ == cp_step(cube.corners@, index as int),
            r.edges@ == ep_step(cube.edges@, index as int),
            r.slice@ == sp_step(cube.slice@, index as int),
            r.wf(),
    {
        proof {
            lemma_p2_sizes();
            lemma_fact_12();
            lemma_fact_monotone(8, 12);
        }
        let co = self.corners.lookup(cube.corners.index(), index);
        let eo = self.edges.lookup(cube.edges.index(), index);
        let sl = self.slice.lookup(cube.slice.index(), index);
        Cube {
            corners: Corners::from_index(co),
            edges: Edges::from_index(eo),
            slice: Slice::from_index(sl),
        }
    }
}

/// Builds the transition table of one permutation coordinate space over
/// eight elements: the corner space when `corners` is set, else the edge
/// space.
fn build_perm8_table(corners: bool) -> (r: transition::Table)
    ensures
        r.wf(),
        r.size_spec() == fact(8),
        r.gens_spec() == 10,
        corners ==> forall|c: int, g: int| 0 <= c < fact(8) && 0 <= g < 10
            ==> #[trigger] r.entry(c, g) == cp_step(c, g),
        !corners ==> forall|c: int, g: int| 0 <= c < fact(8) && 0 <= g < 10
            ==> #[trigger] r.entry(c, g) == ep_step(c, g),
{
    proof {
        lemma_p2_sizes();
    }
    let all = PermutationCoord::<8>::all();
    let mut entries: Vec<u32> = Vec::new();
    let mut c: usize = 0;
    while c < all.len()
        invariant
            c <= all@.len(),
            all@.len() == fact(8) == 40320,
            forall|l: int| 0 <= l < all@.len()
                ==> (#[trigger] all@[l])@ == l && all@[l].wf(),
            entries@.len() == c * 10,
            forall|i: int| 0 <= i < entries@.len() ==> (#[trigger] entries@[i]) < 40320,
            corners ==> forall|x: int, g: int| 0 <= x < c && 0 <= g < 10
                ==> entries@[x * 10 + g] == cp_step(x, g),
            !corners ==> forall|x: int, g: int| 0 <= x < c && 0 <= g < 10
                ==> entries@[x * 10 + g] == ep_step(x, g),
        decreases all@.len() - c,
    {
        let arr = all[c].array::<1>();
        let mut g: usize = 0;
        while g < 10
            invariant
                g <= 10,
                c < all@.len(),
                all@.len() == fact(8) == 40320,
                forall|l: int| 0 <= l < all@.len()
                    ==> (#[trigger] all@[l])@ == l && all@[l].wf(),
                arr.wf(),
                forall|i: int| 0 <= i < 8 ==> (#[trigger] arr@[i]) == p_canon(c as int, 8)[i],
                entries@.len() == c * 10 + g,
                forall|i: int| 0 <= i < entries@.len() ==> (#[trigger] entries@[i]) < 40320,
                corners ==> forall|x: int, g2: int| 0 <= x < c && 0 <= g2 < 10
                    ==> entries@[x * 10 + g2] == cp_step(x, g2),
                !corners ==> forall|x: int, g2: int| 0 <= x < c && 0 <= g2 < 10
                    ==> entries@[x * 10 + g2] == ep_step(x, g2),
                corners ==> forall|g2: int| 0 <= g2 < g
                    ==> entries@[c * 10 + g2] == cp_step(c as int, g2),
                !corners ==> forall|g2: int| 0 <= g2 < g
                    ==> entries@[c * 10 + g2] == ep_step(c as int, g2),
            decreases 10 - g,
        {
            proof {
                lemma_p2_sizes();
                assert(arr@ =~= p_canon(c as int, 8));
            }
            let m = if corners { corner_move(g) } else { edge_move(g) };
            let next = arr.permute(&m).p_coordinate();
            entries.push(next.index() as u32);
            g = g + 1;
        }
        c = c + 1;
    }
    proof {
        assert(entries@.len() == 40320 * 10);
    }
    transition::Table::new(40320, 10, entries)
}

/// The three phase-2 pruning tables; the heuristic of a state is the
/// largest of its three lower bounds.
pub struct PruningTable {
    pub corners: pruning::Table,
    pub edges: pruning::Table,
    pub slice: pruning::Table,
}

impl PruningTable {
    /// Well-formedness relative to the transition tables the flood used.
    pub open spec fn wf(self, t: &Table) -> bool {
        &&& self.corners.wf()
        &&& self.corners.len_spec() == fact(8)
        &&& self.edges.wf()
        &&& self.edges.len_spec() == fact(8)
        &&& self.slice.wf()
        &&& self.slice.len_spec() == fact(4)
        &&& self.corners.depth(0) == 0
        &&& self.edges.depth(0) == 0
        &&& self.slice.depth(0) == 0
        &&& forall|x: int, d: int|
            0 <= x < fact(8) && 0 <= d <= 253 && #[trigger] transition::reaches(t.corners, 0, x, d)
            ==> self.corners.depth(x) <= d
        &&& forall|x: int, d: int|
            0 <= x < fact(8) && 0 <= d <= 253 && #[trigger] transition::reaches(t.edges, 0, x, d)
            ==> self.edges.depth(x) <= d
        &&& forall|x: int, d: int|
            0 <= x < fact(4) && 0 <= d <= 253 && #[trigger] transition::reaches(t.slice, 0, x, d)
            ==> self.slice.depth(x) <= d
        &&& forall|x: int| 0 <= x < fact(8) && #[trigger] self.corners.depth(x) > 0
            ==> transition::reaches(t.corners, 0, x, self.corners.depth(x))
        &&& forall|x: int| 0 <= x < fact(8) && #[trigger] self.edges.depth(x) > 0
            ==> transition::reaches(t.edges, 0, x, self.edges.depth(x))
        &&& forall|x: int| 0 <= x < fact(4) && #[trigger] self.slice.depth(x) > 0
            ==> transition::reaches(t.slice, 0, x, self.slice.depth(x))
        &&& forall|x: int| 0 <= x < fact(8) && #[trigger] self.corners.depth(x) == 0 && x != 0
            ==> !transition::reaches(t.corners, 0, x, 253)
        &&& forall|x: int| 0 <= x < fact(8) && #[trigger] self.edges.depth(x) == 0 && x != 0
            ==> !transition::reaches(t.edges, 0, x, 253)
        &&& forall|x: int| 0 <= x < fact(4) && #[trigger] self.slice.depth(x) == 0 && x != 0
            ==> !transition::reaches(t.slice, 0, x, 253)
    }

    /// Floods each coordinate space from the identity.
    pub fn new(t: &Table) -> (r: Self)
        requires
            t.wf(),
        ensures
            r.wf(t),
    {
        proof {
            lemma_p2_sizes();
        }
        PruningTable {
            corners: pruning::Table::new(&t.corners, 0),
            edges: pruning::Table::new(&t.edges, 0),
            slice: pruning::Table::new(&t.slice, 0),
        }
    }

    /// The heuristic of a phase-2 state: the largest of its three bounds.
    pub fn lookup(&self, cube: Cube) -> (r: Depth)
        requires
            cube.wf(),
            self.corners.len_spec() == fact(8),
            self.edges.len_spec() == fact(8),
            self.slice.len_spec() == fact(4),
        ensures
            r == vstd::math::max(
                vstd::math::max(
                    self.corners.depth(cube.corners@),
                    self.edges.depth(cube.edges@),
                ),
                self.slice.depth(cube.slice@),
            ),
    {
        proof {
            lemma_p2_sizes();
        }
        let a = self.corners.lookup(cube.corners.index());
        let b = self.edges.lookup(cube.edges.index());
        let c = self.slice.lookup(cube.slice.index());
        let ab = if a >= b { a } else { b };
        if ab >= c { ab } else { c }
    }
}

impl Search for Cube {
    type HeuristicData = PruningTable;
    type TransitionData = Table;

    open spec fn is_goal_spec(self) -> bool {
        self.solved_spec()
    }

    open spec fn inv(self, td: &Table) -> bool {
        self.wf() && td.wf()
    }

    open spec fn hinv(self, hd: &PruningTable) -> bool {
        self.wf()
            && hd.corners.len_spec() == fact(8)
            && hd.edges.len_spec() == fact(8)
            && hd.slice.len_spec() == fact(4)
    }

    open spec fn compat(hd: &PruningTable, td: &Table) -> bool {
        td.wf()
            && hd.corners.len_spec() == fact(8)
            && hd.edges.len_spec() == fact(8)
            && hd.slice.len_spec() == fact(4)
    }

    open spec fn h_spec(self, hd: &PruningTable) -> int {
        vstd::math::max(
            vstd::math::max(hd.corners.depth(self.corners@), hd.edges.depth(self.edges@)),
            hd.slice.depth(self.slice@),
        )
    }

    open spec fn gens_spec(td: &Table) -> int {
        10
    }

    open spec fn step_spec(self, td: &Table, g: int) -> Self {
        Cube {
            corners: crate::definitions::p_coord_spec(cp_step(self.corners@, g)),
            edges: crate::definitions::p_coord_spec(ep_step(self.edges@, g)),
            slice: crate::definitions::p_coord_spec(sp_step(self.slice@, g)),
        }
    }

    proof fn lemma_step_keeps(self, hd: &PruningTable, td: &Table, g: int) {
        lemma_p2_sizes();
        assert(td.corners.entry(self.corners@, g) == cp_step(self.corners@, g));
        assert(td.edges.entry(self.edges@, g) == ep_step(self.edges@, g));
        assert(td.slice.entry(self.slice@, g) == sp_step(self.slice@, g));
        crate::definitions::lemma_p_coord_spec_view::<8>(cp_step(self.corners@, g));
        crate::definitions::lemma_p_coord_spec_view::<8>(ep_step(self.edges@, g));
        crate::definitions::lemma_p_coord_spec_view::<4>(sp_step(self.slice@, g));
    }

    fn heuristic(self, hd: &PruningTable) -> (r: Depth) {
        hd.lookup(self)
    }

    fn step(self, td: &Table, g: usize) -> (r: Self) {
        let r = td.lookup(self, g);
        proof {
            lemma_p2_sizes();
            crate::definitions::lemma_p_coord_spec_view::<8>(cp_step(self.corners@, g as int));
            crate::definitions::lemma_p_coord_spec_view::<8>(ep_step(self.edges@, g as int));
            crate::definitions::lemma_p_coord_spec_view::<4>(sp_step(self.slice@, g as int));
            lemma_p_coord_eq(r.corners, self.step_spec(td, g as int).corners);
            lemma_p_coord_eq(r.edges, self.step_spec(td, g as int).edges);
            lemma_p_coord_eq(r.slice, self.step_spec(td, g as int).slice);
        }
        r
    }

    fn gens(td: &Table) -> (r: usize) {
        10
    }

    fn is_goal(self) -> (r: bool) {
        self.corners.index() == 0 && self.edges.index() == 0 && self.slice.index() == 0
    }
}

} // verus!