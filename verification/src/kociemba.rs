pub mod phase1;
pub mod phase2;

use vstd::prelude::*;

verus! {

use crate::definitions::{
    o_coord_spec, c_coord_spec, p_coord_spec, o_val, c_val, lehmer, o_sum,
    lemma_o_coord_eq, lemma_c_coord_eq, lemma_p_coord_eq, CreationError,
};
use crate::metric::Htm;
use crate::puzzle::Cube3x3;
use crate::search::{Depth, Search, ida_star, is_solution, follow, edges_ok, admissible,
    lemma_follow_snoc, lemma_follow_append};
use crate::util::{lemma_fact_12, lemma_fact_monotone};

/// The four tables the two-phase solver works from.
pub type Tables = (phase1::Table, phase1::PruningTable, phase2::Table, phase2::PruningTable);

/// Every table is well formed and belongs to its phase.
pub open spec fn tables_wf(t: &Tables) -> bool {
    t.0.wf() && t.1.wf(&t.0) && t.2.wf() && t.3.wf(&t.2)
}

/// Builds the transition and pruning tables of both phases. The outcome is
/// the same on every run.
pub fn generate_tables() -> (r: Tables)
    ensures
        tables_wf(&r),
{
    let move_1 = phase1::Table::new();
    let pruning_1 = phase1::PruningTable::new(&move_1);
    let move_2 = phase2::Table::new();
    let pruning_2 = phase2::PruningTable::new(&move_2);
    (move_1, pruning_1, move_2, pruning_2)
}

/// The phase-1 projection of a cube state: both orientation coordinates and
/// the middle-slice combination.
pub open spec fn project1_spec(corners: Seq<(u8, u8)>, edges: Seq<(u8, u8)>) -> phase1::Cube {
    phase1::Cube {
        corners: o_coord_spec(o_val(corners, 3)),
        edges: o_coord_spec(o_val(edges, 2)),
        slice: c_coord_spec(c_val(edges, 12, 4)),
    }
}

/// Projects a cube state into phase 1.
pub fn project1(cube: &Cube3x3) -> (r: phase1::Cube)
    requires
        cube.wf(),
    ensures
        r == project1_spec(cube.corners@, cube.edges@),
        r.wf(),
{
    proof {
        phase1::lemma_co_size();
        phase1::lemma_slice_size();
    }
    let co = cube.corners.o_coordinate();
    let eo = cube.edges.o_coordinate();
    let sl = cube.edges.c_coordinate::<4>();
    let r = phase1::Cube::new(co, eo, sl);
    proof {
        crate::definitions::lemma_o_coord_spec_view::<8, 3>(o_val(cube.corners@, 3));
        crate::definitions::lemma_o_coord_spec_view::<12, 2>(o_val(cube.edges@, 2));
        crate::definitions::lemma_c_coord_spec_view::<12, 4>(c_val(cube.edges@, 12, 4));
        lemma_o_coord_eq(r.corners, project1_spec(cube.corners@, cube.edges@).corners);
        lemma_o_coord_eq(r.edges, project1_spec(cube.corners@, cube.edges@).edges);
        lemma_c_coord_eq(r.slice, project1_spec(cube.corners@, cube.edges@).slice);
    }
    r
}

/// The first eight edges of a cube state, the layer edges of phase 2.
pub open spec fn top_edges(edges: Seq<(u8, u8)>) -> Seq<(u8, u8)> {
    edges.subrange(0, 8)
}

/// The four middle-slice edges of a cube state, renumbered from zero.
pub open spec fn slice_edges(edges: Seq<(u8, u8)>) -> Seq<(u8, u8)> {
    Seq::new(4, |i: int| (#[verifier::truncate] ((edges[8 + i].0 - 8) as u8), edges[8 + i].1))
}

/// A cube state lies in the phase-2 subgroup as far as its edge positions
/// go: layer edges in the layers, slice edges in the slice.
pub open spec fn edges_in_g1(edges: Seq<(u8, u8)>) -> bool {
    &&& forall|i: int| 0 <= i < 8 ==> (#[trigger] edges[i]).0 < 8
    &&& forall|i: int| 8 <= i < 12 ==> (#[trigger] edges[i]).0 >= 8
}

/// The phase-2 projection of a cube state: three permutation coordinates.
pub open spec fn project2_spec(corners: Seq<(u8, u8)>, edges: Seq<(u8, u8)>) -> phase2::Cube {
    phase2::Cube {
        corners: p_coord_spec(lehmer(corners)),
        edges: p_coord_spec(lehmer(top_edges(edges))),
        slice: p_coord_spec(lehmer(slice_edges(edges))),
    }
}

/// Projects a cube state into phase 2; fails when the state is not in the
/// phase-2 subgroup.
pub fn project2(cube: &Cube3x3) -> (r: Result<phase2::Cube, CreationError>)
    requires
        cube.wf(),
    ensures
        r is Ok <==> edges_in_g1(cube.edges@),
        r is Ok ==> r->Ok_0 == project2_spec(cube.corners@, cube.edges@) && r->Ok_0.wf(),
{
    let cp = cube.corners.p_coordinate();
    let e8 = match cube.edges.truncate::<8>() {
        Ok(a) => a,
        Err(e) => {
            return Err(e);
        },
    };
    let s4 = match cube.edges.drop::<4>() {
        Ok(a) => a,
        Err(e) => {
            return Err(e);
        },
    };
    let ep = e8.p_coordinate();
    let sp = s4.p_coordinate();
    let r = phase2::Cube::new(cp, ep, sp);
    proof {
        phase2::lemma_p2_sizes();
        lemma_fact_12();
        lemma_fact_monotone(8, 12);
        assert(e8@ == top_edges(cube.edges@));
        assert(s4@ =~= slice_edges(cube.edges@));
        crate::definitions::lemma_p_coord_spec_view::<8>(lehmer(cube.corners@));
        crate::definitions::lemma_p_coord_spec_view::<8>(lehmer(top_edges(cube.edges@)));
        crate::definitions::lemma_p_coord_spec_view::<4>(lehmer(slice_edges(cube.edges@)));
        lemma_p_coord_eq(r.corners, project2_spec(cube.corners@, cube.edges@).corners);
        lemma_p_coord_eq(r.edges, project2_spec(cube.corners@, cube.edges@).edges);
        lemma_p_coord_eq(r.slice, project2_spec(cube.corners@, cube.edges@).slice);
    }
    Ok(r)
}

/// The face turns that a sequence of phase-2 generator indices names.
pub fn phase2_to_htm(gens: &Vec<usize>) -> (r: Vec<Htm>)
    requires
        forall|i: int| 0 <= i < gens@.len() ==> (#[trigger] gens@[i]) < 10,
    ensures
        r@.len() == gens@.len(),
        forall|i: int| 0 <= i < r@.len()
            ==> (#[trigger] r@[i]).idx() == phase2::gen_htm_index(gens@[i] as int),
{
    let mut out: Vec<Htm> = Vec::new();
    let mut i: usize = 0;
    while i < gens.len()
        invariant
            i <= gens@.len(),
            forall|j: int| 0 <= j < gens@.len() ==> (#[trigger] gens@[j]) < 10,
            out@.len() == i,
            forall|j: int| 0 <= j < i
                ==> (#[trigger] out@[j]).idx() == phase2::gen_htm_index(gens@[j] as int),
        decreases gens@.len() - i,
    {
        out.push(phase2::Cube::face_turn(gens[i]));
        i = i + 1;
    }
    out
}

/// What a returned move list promises: some prefix of it drives the
/// scramble's phase-1 projection to the phase-1 goal, and the rest, read as
/// phase-2 generators, drives the phase-2 projection of the cube the prefix
/// leaves behind to the phase-2 goal.
pub open spec fn solution_shape(
    corners: Seq<(u8, u8)>,
    edges: Seq<(u8, u8)>,
    t1: &phase1::Table,
    t2: &phase2::Table,
    ms: Seq<Htm>,
) -> bool {
    exists|m1: Seq<usize>, m2: Seq<usize>|
        #![trigger is_solution(project1_spec(corners, edges), t1, m1),
            edges_ok::<phase2::Cube>(t2, m2)]
        {
            &&& m1.len() + m2.len() == ms.len()
            &&& is_solution(project1_spec(corners, edges), t1, m1)
            &&& (forall|i: int| 0 <= i < m1.len() ==> (#[trigger] ms[i]).idx() == m1[i])
            &&& edges_ok::<phase2::Cube>(t2, m2)
            &&& {
                let mid = crate::puzzle::cube3x3::apply_seq_spec(
                    corners, edges, ms.subrange(0, m1.len() as int));
                &&& edges_in_g1(mid.1)
                &&& is_solution(project2_spec(mid.0, mid.1), t2, m2)
            }
            &&& (forall|i: int| 0 <= i < m2.len()
                ==> (#[trigger] ms[m1.len() + i]).idx() == phase2::gen_htm_index(m2[i] as int))
        }
}

} // verus!

verus! {

/// The generator indices of a sequence of face turns.
pub open spec fn htm_idx_seq(ms: Seq<Htm>) -> Seq<usize> {
    Seq::new(ms.len(), |i: int| #[verifier::truncate] (ms[i].idx() as usize))
}

/// The face turns that a sequence of generator indices names.
pub open spec fn htm_seq_of(p: Seq<usize>) -> Seq<Htm> {
    Seq::new(p.len(), |i: int| crate::metric::htm_of(p[i] as int))
}

/// A way to finish the two-phase search below a phase-1 node reached by the
/// turns of `pre`: `m1` further phase-1 edges that drive the phase-1
/// projection to its goal, such that the cube the whole phase-1 path leaves
/// behind sits in the phase-2 subgroup and `m2` solves its phase-2
/// projection within the budget.
pub open spec fn completion(
    corners: Seq<(u8, u8)>,
    edges: Seq<(u8, u8)>,
    t1: &phase1::Table,
    t2: &phase2::Table,
    pre: Seq<Htm>,
    m1: Seq<usize>,
    m2: Seq<usize>,
    max2: int,
) -> bool {
    let full1 = htm_idx_seq(pre).add(m1);
    let mid = crate::puzzle::cube3x3::apply_seq_spec(corners, edges, pre.add(htm_seq_of(m1)));
    &&& is_solution(project1_spec(corners, edges), t1, full1)
    &&& edges_in_g1(mid.1)
    &&& m2.len() <= max2
    &&& is_solution(project2_spec(mid.0, mid.1), t2, m2)
}

/// One depth level of the lazy phase-1 enumeration, fused with the phase-2
/// completion: the first phase-1 solution of length exactly `remaining`
/// below `prefix` whose phase-2 tail fits `max2` gives the answer.
fn phase1_dfs(
    cube: &Cube3x3,
    prefix: &mut Vec<Htm>,
    s1: phase1::Cube,
    t1: &phase1::Table,
    p1: &phase1::PruningTable,
    t2: &phase2::Table,
    p2: &phase2::PruningTable,
    remaining: Depth,
    max2: Depth,
) -> (r: Option<Vec<Htm>>)
    requires
        cube.wf(),
        t1.wf(),
        p1.wf(t1),
        t2.wf(),
        p2.wf(t2),
        s1.wf(),
        edges_ok::<phase1::Cube>(t1, htm_idx_seq(old(prefix)@)),
        follow(project1_spec(cube.corners@, cube.edges@), t1, htm_idx_seq(old(prefix)@)) == s1,
    ensures
        r is None ==> final(prefix)@ == old(prefix)@,
        r is Some ==> solution_shape(cube.corners@, cube.edges@, t1, t2, r->0@),
        r is Some ==> r->0@.len() <= old(prefix)@.len() + remaining + max2,
        r is None && admissible::<phase1::Cube>(p1, t1) && admissible::<phase2::Cube>(p2, t2)
            ==> forall|m1: Seq<usize>, m2: Seq<usize>| m1.len() == remaining
                ==> !(#[trigger] completion(
                    cube.corners@, cube.edges@, t1, t2, old(prefix)@, m1, m2, max2 as int)),
        ({
            let mid0 = crate::puzzle::cube3x3::apply_seq_spec(
                cube.corners@, cube.edges@, old(prefix)@);
            remaining == 0 && s1.solved_spec() && edges_in_g1(mid0.1)
                && project2_spec(mid0.0, mid0.1).solved_spec()
                && admissible::<phase2::Cube>(p2, t2)
        }) ==> r is Some && r->0@.len() == old(prefix)@.len(),
    decreases remaining,
{
    if remaining == 0 {
        if s1.is_goal() {
            let intermediate = cube.apply_seq(prefix);
            match project2(&intermediate) {
                Ok(q) => {
                    match ida_star::<phase2::Cube>(q, p2, t2, max2) {
                        Some(gens2) => {
                            let tail = phase2_to_htm(&gens2);
                            let mut out = Vec::<Htm>::new();
                            let mut i: usize = 0;
                            while i < prefix.len()
                                invariant
                                    i <= prefix@.len(),
                                    out@.len() == i,
                                    forall|j: int| 0 <= j < i ==> (#[trigger] out@[j]) == prefix@[j],
                                decreases prefix@.len() - i,
                            {
                                out.push(prefix[i]);
                                i = i + 1;
                            }
                            let mut i: usize = 0;
                            while i < tail.len()
                                invariant
                                    i <= tail@.len(),
                                    out@.len() == prefix@.len() + i,
                                    forall|j: int| 0 <= j < prefix@.len()
                                        ==> (#[trigger] out@[j]) == prefix@[j],
                                    forall|j: int| 0 <= j < i
                                        ==> (#[trigger] out@[prefix@.len() + j]) == tail@[j],
                                decreases tail@.len() - i,
                            {
                                out.push(tail[i]);
                                i = i + 1;
                            }
                            proof {
                                if admissible::<phase2::Cube>(p2, t2) && q.solved_spec() {
                                    // the empty list already solves a solved
                                    // start, so the shortest answer is empty
                                    let e = Seq::<usize>::empty();
                                    assert(crate::search::follow(q, t2, e) == q);
                                    assert(is_solution(q, t2, e));
                                    if gens2@.len() >= 1 {
                                        assert(!crate::search::follow(q, t2, e).is_goal_spec());
                                        assert(false);
                                    }
                                }
                                let m1 = htm_idx_seq(prefix@);
                                let m2 = gens2@;
                                assert(out@.subrange(0, m1.len() as int) =~= prefix@);
                                assert(forall|i: int| 0 <= i < m1.len()
                                    ==> (#[trigger] out@[i]).idx() == m1[i]);
                                assert(forall|i: int| 0 <= i < m2.len()
                                    ==> (#[trigger] out@[m1.len() + i]).idx()
                                        == phase2::gen_htm_index(m2[i] as int));
                                let mid = crate::puzzle::cube3x3::apply_seq_spec(
                                    cube.corners@, cube.edges@, out@.subrange(0, m1.len() as int));
                                assert(mid == (intermediate.corners@, intermediate.edges@));
                                assert(is_solution(project2_spec(mid.0, mid.1), t2, m2));
                                assert(is_solution(project1_spec(cube.corners@, cube.edges@), t1, m1));
                                assert(solution_shape(cube.corners@, cube.edges@, t1, t2, out@));
                            }
                            return Some(out);
                        },
                        None => {
                            proof {
                                if admissible::<phase2::Cube>(p2, t2)
                                    && project2_spec(intermediate.corners@, intermediate.edges@)
                                        .solved_spec() {
                                    let e = Seq::<usize>::empty();
                                    assert(crate::search::follow(q, t2, e) == q);
                                    assert(is_solution(q, t2, e));
                                    assert(false);
                                }
                                if admissible::<phase1::Cube>(p1, t1)
                                    && admissible::<phase2::Cube>(p2, t2) {
                                    assert forall|m1: Seq<usize>, m2: Seq<usize>| m1.len() == 0
                                        implies !(#[trigger] completion(
                                            cube.corners@, cube.edges@, t1, t2, prefix@,
                                            m1, m2, max2 as int)) by {
                                        lemma_empty_completion_parts(prefix@, m1);
                                        if completion(cube.corners@, cube.edges@, t1, t2,
                                            prefix@, m1, m2, max2 as int) {
                                            assert(is_solution(
                                                project2_spec(intermediate.corners@,
                                                    intermediate.edges@), t2, m2));
                                            assert(false);
                                        }
                                    }
                                }
                            }
                            return None;
                        },
                    }
                },
                Err(_) => {
                    // the intermediate state is not in the phase-2 subgroup;
                    // for a zero-sum scramble `lemma_phase1_solution_orients`
                    // rules this out, and the enumeration simply moves on
                    proof {
                        assert forall|m1: Seq<usize>, m2: Seq<usize>| m1.len() == 0
                            implies !(#[trigger] completion(
                                cube.corners@, cube.edges@, t1, t2, prefix@,
                                m1, m2, max2 as int)) by {
                            lemma_empty_completion_parts(prefix@, m1);
                            if completion(cube.corners@, cube.edges@, t1, t2, prefix@,
                                m1, m2, max2 as int) {
                                assert(edges_in_g1(intermediate.edges@));
                                assert(false);
                            }
                        }
                    }
                    return None;
                },
            }
        } else {
            proof {
                assert forall|m1: Seq<usize>, m2: Seq<usize>| m1.len() == 0
                    implies !(#[trigger] completion(
                        cube.corners@, cube.edges@, t1, t2, prefix@, m1, m2, max2 as int)) by {
                    lemma_empty_completion_parts(prefix@, m1);
                    if completion(cube.corners@, cube.edges@, t1, t2, prefix@,
                        m1, m2, max2 as int) {
                        assert(follow(project1_spec(cube.corners@, cube.edges@), t1,
                            htm_idx_seq(prefix@).add(m1)).solved_spec());
                        assert(false);
                    }
                }
            }
            return None;
        }
    }
    let mut g: usize = 0;
    while g < 18
        invariant
            g <= 18,
            cube.wf(),
            t1.wf(),
            p1.wf(t1),
            t2.wf(),
            p2.wf(t2),
            s1.wf(),
            remaining >= 1,
            prefix@ == old(prefix)@,
            edges_ok::<phase1::Cube>(t1, htm_idx_seq(prefix@)),
            follow(project1_spec(cube.corners@, cube.edges@), t1, htm_idx_seq(prefix@)) == s1,
            admissible::<phase1::Cube>(p1, t1) && admissible::<phase2::Cube>(p2, t2)
                ==> forall|m1: Seq<usize>, m2: Seq<usize>|
                    m1.len() == remaining && 0 <= m1[0] < g
                    ==> !(#[trigger] completion(
                        cube.corners@, cube.edges@, t1, t2, prefix@, m1, m2, max2 as int)),
        decreases 18 - g,
    {
        proof {
            assert(phase1::Cube::compat(p1, t1));
        }
        let child = s1.step(t1, g);
        proof {
            s1.lemma_step_keeps(p1, t1, g as int);
        }
        let h = child.heuristic(p1);
        if h as usize + 1 <= remaining as usize {
            let turn = phase1::Cube::gen_to_htm(g);
            let ghost before = prefix@;
            prefix.push(turn);
            proof {
                assert(htm_idx_seq(prefix@) =~= htm_idx_seq(before).push(g));
                lemma_follow_snoc(
                    project1_spec(cube.corners@, cube.edges@), t1, htm_idx_seq(before), g);
            }
            match phase1_dfs(cube, prefix, child, t1, p1, t2, p2, remaining - 1, max2) {
                Some(sol) => {
                    return Some(sol);
                },
                None => {
                    let _ = prefix.pop();
                    proof {
                        assert(prefix@ =~= before);
                        if admissible::<phase1::Cube>(p1, t1)
                            && admissible::<phase2::Cube>(p2, t2) {
                            assert forall|m1: Seq<usize>, m2: Seq<usize>|
                                m1.len() == remaining && 0 <= m1[0] < g + 1
                                implies !(#[trigger] completion(
                                    cube.corners@, cube.edges@, t1, t2, prefix@,
                                    m1, m2, max2 as int)) by {
                                if m1[0] == g as usize {
                                    lemma_completion_step(prefix@, m1, g as int);
                                    assert(!completion(cube.corners@, cube.edges@, t1, t2,
                                        prefix@.push(turn), m1.skip(1), m2, max2 as int));
                                }
                            }
                        }
                    }
                },
            }
        } else {
            proof {
                if admissible::<phase1::Cube>(p1, t1) && admissible::<phase2::Cube>(p2, t2) {
                    assert forall|m1: Seq<usize>, m2: Seq<usize>|
                        m1.len() == remaining && 0 <= m1[0] < g + 1
                        implies !(#[trigger] completion(
                            cube.corners@, cube.edges@, t1, t2, prefix@,
                            m1, m2, max2 as int)) by {
                        if m1[0] == g as usize
                            && completion(cube.corners@, cube.edges@, t1, t2, prefix@,
                                m1, m2, max2 as int) {
                            // a completion through this child would make it a
                            // phase-1 solution the heuristic must respect
                            let proj = project1_spec(cube.corners@, cube.edges@);
                            let full1 = htm_idx_seq(prefix@).add(m1);
                            lemma_follow_append(proj, t1, htm_idx_seq(prefix@), m1);
                            assert(follow(s1, t1, m1) == follow(proj, t1, full1));
                            assert(m1.skip(1).len() == remaining - 1);
                            assert(edges_ok::<phase1::Cube>(t1, full1));
                            assert(edges_ok::<phase1::Cube>(t1, m1.skip(1))) by {
                                let pl = htm_idx_seq(prefix@).len() as int;
                                assert forall|i: int| 0 <= i < m1.skip(1).len()
                                    implies 0 <= #[trigger] m1.skip(1)[i]
                                        < phase1::Cube::gens_spec(t1) by {
                                    assert(m1.skip(1)[i] == m1[i + 1]);
                                    assert(full1[pl + i + 1] == m1[i + 1]);
                                    assert(0 <= full1[pl + i + 1] < phase1::Cube::gens_spec(t1));
                                }
                            }
                            assert(follow(child, t1, m1.skip(1)).solved_spec()) by {
                                assert(m1 =~= seq![m1[0]].add(m1.skip(1)));
                                assert(follow(s1, t1, m1)
                                    == follow(s1.step_spec(t1, g as int), t1, m1.skip(1)));
                            }
                            assert(is_solution(child, t1, m1.skip(1)));
                            assert(child.h_spec(p1) <= remaining - 1);
                            assert(false);
                        }
                    }
                }
            }
        }
        g = g + 1;
    }
    proof {
        assert forall|m1: Seq<usize>, m2: Seq<usize>| m1.len() == remaining
            implies !(#[trigger] completion(
                cube.corners@, cube.edges@, t1, t2, prefix@, m1, m2, max2 as int))
            || !(admissible::<phase1::Cube>(p1, t1) && admissible::<phase2::Cube>(p2, t2)) by {
            if admissible::<phase1::Cube>(p1, t1) && admissible::<phase2::Cube>(p2, t2)
                && completion(cube.corners@, cube.edges@, t1, t2, prefix@, m1, m2, max2 as int) {
                let full1 = htm_idx_seq(prefix@).add(m1);
                assert(0 <= full1[htm_idx_seq(prefix@).len() as int] < 18);
                assert(full1[htm_idx_seq(prefix@).len() as int] == m1[0]);
            }
        }
    }
    None
}

impl Cube3x3 {
    /// Solves this cube with the two-phase method: phase-1 candidates are
    /// enumerated in non-decreasing length, and the first whose phase-2
    /// completion fits the bound gives the answer. With no bound the search
    /// still stops once the longest representable depth is exhausted.
    pub fn kociemba(&self, t: &Tables, max_length: Option<Depth>) -> (r: Option<Vec<Htm>>)
        requires
            self.wf(),
            tables_wf(t),
        ensures
            r is Some ==> solution_shape(self.corners@, self.edges@, &t.0, &t.2, r->0@),
            r is Some && o_sum(self.corners@) % 3 == 0 && o_sum(self.edges@) % 2 == 0
                ==> crate::puzzle::cube3x3::apply_seq_spec(self.corners@, self.edges@, r->0@)
                    == (crate::definitions::id_seq(8), crate::definitions::id_seq(12)),
            r is Some && max_length is Some ==> r->0@.len() <= max_length->0,
            r is None ==> forall|ms: Seq<Htm>|
                ms.len() <= (if max_length is Some { max_length->0 as int } else { 255int })
                ==> !(#[trigger] solution_shape(self.corners@, self.edges@, &t.0, &t.2, ms)),
            project1_spec(self.corners@, self.edges@).solved_spec()
                && edges_in_g1(self.edges@)
                && project2_spec(self.corners@, self.edges@).solved_spec()
                ==> r is Some && r->0@.len() == 0,
    {
        let s1 = project1(self);
        let bound_total: usize = match max_length {
            Some(l) => l as usize,
            None => 255,
        };
        let mut b: usize = 0;
        while b <= bound_total
            invariant
                bound_total <= 255,
                b <= bound_total + 1,
                max_length is Some ==> bound_total == max_length->0,
                self.wf(),
                tables_wf(t),
                s1.wf(),
                s1 == project1_spec(self.corners@, self.edges@),
                forall|m1: Seq<usize>, m2: Seq<usize>| m1.len() < b
                    ==> !(#[trigger] completion(self.corners@, self.edges@, &t.0, &t.2,
                        Seq::<Htm>::empty(), m1, m2, bound_total - m1.len())),
                project1_spec(self.corners@, self.edges@).solved_spec()
                    && edges_in_g1(self.edges@)
                    && project2_spec(self.corners@, self.edges@).solved_spec()
                    ==> b == 0,
            decreases bound_total + 1 - b,
        {
            let max2: Depth = (bound_total - b) as Depth;
            let mut prefix: Vec<Htm> = Vec::new();
            proof {
                assert(htm_idx_seq(prefix@) =~= Seq::<usize>::empty());
                crate::laws::lemma_generated_tables_admissible(t);
                assert(crate::puzzle::cube3x3::apply_seq_spec(
                    self.corners@, self.edges@, prefix@) == (self.corners@, self.edges@));
            }
            match phase1_dfs(self, &mut prefix, s1, &t.0, &t.1, &t.2, &t.3, b as Depth, max2) {
                Some(sol) => {
                    proof {
                        if o_sum(self.corners@) % 3 == 0 && o_sum(self.edges@) % 2 == 0 {
                            crate::laws::lemma_solution_restores(
                                self.corners@, self.edges@, &t.0, &t.2, sol@);
                        }
                    }
                    return Some(sol);
                },
                None => {},
            }
            b = b + 1;
        }
        proof {
            lemma_no_completion_no_shape(self.corners@, self.edges@, &t.0, &t.2, bound_total as int);
        }
        None
    }
}

/// Solves the cube that `scramble` produces from the solved state; the
/// two-phase driver under its free-function name.
pub fn solve(
    scramble: Vec<Htm>,
    move_table_1: &phase1::Table,
    move_table_2: &phase2::Table,
    pruning_table_1: &phase1::PruningTable,
    pruning_table_2: &phase2::PruningTable,
    max_length: Option<Depth>,
) -> (r: Option<Vec<Htm>>)
    requires
        move_table_1.wf(),
        pruning_table_1.wf(move_table_1),
        move_table_2.wf(),
        pruning_table_2.wf(move_table_2),
    ensures
        r is Some ==> solution_shape(
            crate::puzzle::cube3x3::scrambled_view(scramble@).0,
            crate::puzzle::cube3x3::scrambled_view(scramble@).1,
            move_table_1, move_table_2, r->0@),
        r is Some && max_length is Some ==> r->0@.len() <= max_length->0,
        r is None ==> forall|ms: Seq<Htm>|
            ms.len() <= (if max_length is Some { max_length->0 as int } else { 255int })
            ==> !(#[trigger] solution_shape(
                crate::puzzle::cube3x3::scrambled_view(scramble@).0,
                crate::puzzle::cube3x3::scrambled_view(scramble@).1,
                move_table_1, move_table_2, ms)),
        r is Some ==> crate::puzzle::cube3x3::apply_seq_spec(
                crate::puzzle::cube3x3::scrambled_view(scramble@).0,
                crate::puzzle::cube3x3::scrambled_view(scramble@).1,
                r->0@,
            ) == (crate::definitions::id_seq(8), crate::definitions::id_seq(12)),
        ({
            let sv = crate::puzzle::cube3x3::scrambled_view(scramble@);
            project1_spec(sv.0, sv.1).solved_spec()
                && edges_in_g1(sv.1)
                && project2_spec(sv.0, sv.1).solved_spec()
        }) ==> r is Some && r->0@.len() == 0,
{
    let cube = Cube3x3::from_slice(scramble.as_slice());
    let s1 = project1(&cube);
    let bound_total: usize = match max_length {
        Some(l) => l as usize,
        None => 255,
    };
    let mut b: usize = 0;
    while b <= bound_total
        invariant
            bound_total <= 255,
            b <= bound_total + 1,
            max_length is Some ==> bound_total == max_length->0,
            cube.wf(),
            (cube.corners@, cube.edges@) == crate::puzzle::cube3x3::scrambled_view(scramble@),
            move_table_1.wf(),
            pruning_table_1.wf(move_table_1),
            move_table_2.wf(),
            pruning_table_2.wf(move_table_2),
            s1.wf(),
            s1 == project1_spec(cube.corners@, cube.edges@),
            forall|m1: Seq<usize>, m2: Seq<usize>| m1.len() < b
                ==> !(#[trigger] completion(cube.corners@, cube.edges@,
                    move_table_1, move_table_2,
                    Seq::<Htm>::empty(), m1, m2, bound_total - m1.len())),
            project1_spec(cube.corners@, cube.edges@).solved_spec()
                && edges_in_g1(cube.edges@)
                && project2_spec(cube.corners@, cube.edges@).solved_spec()
                ==> b == 0,
        decreases bound_total + 1 - b,
    {
        let max2: Depth = (bound_total - b) as Depth;
        let mut prefix: Vec<Htm> = Vec::new();
        proof {
            assert(htm_idx_seq(prefix@) =~= Seq::<usize>::empty());
            assert(crate::puzzle::cube3x3::apply_seq_spec(
                cube.corners@, cube.edges@, prefix@) == (cube.corners@, cube.edges@));
            crate::laws::lemma_phase1_tables_inverse_closed(move_table_1);
            crate::laws::lemma_phase2_tables_inverse_closed(move_table_2);
            crate::laws::lemma_phase1_admissible(pruning_table_1, move_table_1);
            crate::laws::lemma_phase2_admissible(pruning_table_2, move_table_2);
        }
        match phase1_dfs(
            &cube, &mut prefix, s1,
            move_table_1, pruning_table_1, move_table_2, pruning_table_2,
            b as Depth, max2,
        ) {
            Some(sol) => {
                proof {
                    crate::laws::lemma_reachable_zero_sum(scramble@);
                    crate::laws::lemma_solution_restores(
                        cube.corners@, cube.edges@, move_table_1, move_table_2, sol@);
                }
                return Some(sol);
            },
            None => {},
        }
        b = b + 1;
    }
    proof {
        lemma_no_completion_no_shape(
            cube.corners@, cube.edges@, move_table_1, move_table_2, bound_total as int);
    }
    None
}

} // verus!

verus! {

/// Peeling the first edge off a completion tail: the edge joins the
/// prefix, at the index level and at the turn level alike.
pub proof fn lemma_completion_step(pre: Seq<Htm>, m1: Seq<usize>, g: int)
    requires
        m1.len() >= 1,
        m1[0] == g,
        0 <= g < 18,
    ensures
        htm_idx_seq(pre).add(m1) == htm_idx_seq(pre.push(crate::metric::htm_of(g))).add(m1.skip(1)),
        pre.add(htm_seq_of(m1))
            == pre.push(crate::metric::htm_of(g)).add(htm_seq_of(m1.skip(1))),
{
    crate::metric::lemma_idx_of_htm(g);
    assert(htm_idx_seq(pre.push(crate::metric::htm_of(g))) =~= htm_idx_seq(pre).push(g as usize));
    assert(htm_idx_seq(pre).add(m1)
        =~= htm_idx_seq(pre.push(crate::metric::htm_of(g))).add(m1.skip(1)));
    assert(htm_seq_of(m1) =~= seq![crate::metric::htm_of(g)].add(htm_seq_of(m1.skip(1))));
    assert(pre.add(htm_seq_of(m1))
        =~= pre.push(crate::metric::htm_of(g)).add(htm_seq_of(m1.skip(1))));
}

/// An empty tail leaves the phase-1 path and the applied turn sequence
/// unchanged.
pub proof fn lemma_empty_completion_parts(pre: Seq<Htm>, m1: Seq<usize>)
    requires
        m1.len() == 0,
    ensures
        htm_idx_seq(pre).add(m1) == htm_idx_seq(pre),
        pre.add(htm_seq_of(m1)) == pre,
{
    assert(htm_idx_seq(pre).add(m1) =~= htm_idx_seq(pre));
    assert(htm_seq_of(m1) =~= Seq::<Htm>::empty());
    assert(pre.add(htm_seq_of(m1)) =~= pre);
}

} // verus!

verus! {

/// Where no bound admits a completion, no move list of the solution shape
/// fits the bound: the bridge from the per-depth search failures to the
/// driver's definitive answer.
pub proof fn lemma_no_completion_no_shape(
    corners: Seq<(u8, u8)>,
    edges: Seq<(u8, u8)>,
    t1: &phase1::Table,
    t2: &phase2::Table,
    bound_total: int,
)
    requires
        forall|m1: Seq<usize>, m2: Seq<usize>| m1.len() <= bound_total
            ==> !(#[trigger] completion(corners, edges, t1, t2,
                Seq::<Htm>::empty(), m1, m2, bound_total - m1.len())),
    ensures
        forall|ms: Seq<Htm>| ms.len() <= bound_total
            ==> !(#[trigger] solution_shape(corners, edges, t1, t2, ms)),
{
    assert forall|ms: Seq<Htm>| ms.len() <= bound_total
        implies !(#[trigger] solution_shape(corners, edges, t1, t2, ms)) by {
        if solution_shape(corners, edges, t1, t2, ms) {
            let (m1, m2) = choose|m1: Seq<usize>, m2: Seq<usize>|
                #![trigger is_solution(project1_spec(corners, edges), t1, m1),
                    edges_ok::<phase2::Cube>(t2, m2)]
                {
                    &&& m1.len() + m2.len() == ms.len()
                    &&& is_solution(project1_spec(corners, edges), t1, m1)
                    &&& (forall|i: int| 0 <= i < m1.len() ==> (#[trigger] ms[i]).idx() == m1[i])
                    &&& edges_ok::<phase2::Cube>(t2, m2)
                    &&& {
                        let mid = crate::puzzle::cube3x3::apply_seq_spec(
                            corners, edges, ms.subrange(0, m1.len() as int));
                        &&& edges_in_g1(mid.1)
                        &&& is_solution(project2_spec(mid.0, mid.1), t2, m2)
                    }
                    &&& (forall|i: int| 0 <= i < m2.len()
                        ==> (#[trigger] ms[m1.len() + i]).idx()
                            == phase2::gen_htm_index(m2[i] as int))
                };
            let k = m1.len() as int;
            assert(htm_idx_seq(Seq::<Htm>::empty()).add(m1) =~= m1);
            assert(ms.subrange(0, k) =~= htm_seq_of(m1)) by {
                assert forall|i: int| 0 <= i < k
                    implies ms.subrange(0, k)[i] == htm_seq_of(m1)[i] by {
                    assert(ms[i].idx() == m1[i]);
                    crate::metric::lemma_htm_of_idx(ms[i]);
                }
            }
            assert(Seq::<Htm>::empty().add(htm_seq_of(m1)) =~= ms.subrange(0, k));
            assert(completion(corners, edges, t1, t2, Seq::<Htm>::empty(), m1, m2,
                bound_total - k));
            assert(false);
        }
    }
}

} // verus!
