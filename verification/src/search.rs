use vstd::prelude::*;

verus! {

pub use crate::pruning::Depth;

/// A state space searchable by iterative deepening: states know their goal,
/// their generator count, their successors, and a heuristic lower bound.
pub trait Search: Sized + Copy {
    type HeuristicData;
    type TransitionData;

    /// Whether this state is the goal the search drives towards.
    spec fn is_goal_spec(self) -> bool;

    /// The state lies inside the space the transition data covers.
    spec fn inv(self, td: &Self::TransitionData) -> bool;

    /// The state lies inside the space the heuristic data covers.
    spec fn hinv(self, hd: &Self::HeuristicData) -> bool;

    /// The heuristic data fits the transition data.
    spec fn compat(hd: &Self::HeuristicData, td: &Self::TransitionData) -> bool;

    /// The heuristic bound of this state.
    spec fn h_spec(self, hd: &Self::HeuristicData) -> int;

    /// How many generators the transition data covers.
    spec fn gens_spec(td: &Self::TransitionData) -> int;

    /// The state this one becomes under generator `g`.
    spec fn step_spec(self, td: &Self::TransitionData, g: int) -> Self;

    /// Fitting data keeps states inside both spaces across a step.
    proof fn lemma_step_keeps(self, hd: &Self::HeuristicData, td: &Self::TransitionData, g: int)
        requires
            Self::compat(hd, td),
            self.inv(td),
            0 <= g < Self::gens_spec(td),
        ensures
            self.step_spec(td, g).inv(td),
            self.step_spec(td, g).hinv(hd),
            self.hinv(hd);

    /// A domain-specific lower bound on the distance from this state to the
    /// goal state.
    fn heuristic(self, hd: &Self::HeuristicData) -> (r: Depth)
        requires
            self.hinv(hd),
        ensures
            r == self.h_spec(hd);

    /// The state reached from this one by generator `g`.
    fn step(self, td: &Self::TransitionData, g: usize) -> (r: Self)
        requires
            self.inv(td),
            g < Self::gens_spec(td),
        ensures
            r == self.step_spec(td, g as int),
            r.inv(td);

    /// How many generators the transition data covers.
    fn gens(td: &Self::TransitionData) -> (r: usize)
        ensures
            r == Self::gens_spec(td);

    /// Whether this state is the goal.
    fn is_goal(self) -> (r: bool)
        ensures
            r <==> self.is_goal_spec();

    /// All successors of this state, labelled by generator index.
    fn transition(self, td: &Self::TransitionData) -> (r: Vec<(Self, usize)>)
        requires
            self.inv(td),
        ensures
            r.len() == Self::gens_spec(td),
            forall|i: int| 0 <= i < r.len()
                ==> (#[trigger] r[i]).1 == i && r[i].0 == self.step_spec(td, i) && r[i].0.inv(td),
    {
        let gens = Self::gens(td);
        let mut out: Vec<(Self, usize)> = Vec::new();
        let mut g: usize = 0;
        while g < gens
            invariant
                g <= gens,
                gens == Self::gens_spec(td),
                self.inv(td),
                out.len() == g,
                forall|i: int| 0 <= i < g
                    ==> (#[trigger] out[i]).1 == i && out[i].0 == self.step_spec(td, i)
                        && out[i].0.inv(td),
            decreases gens - g,
        {
            out.push((self.step(td, g), g));
            g = g + 1;
        }
        out
    }
}

/// Every edge of `p` names a generator of `td`.
pub open spec fn edges_ok<T: Search>(td: &T::TransitionData, p: Seq<usize>) -> bool {
    forall|i: int| 0 <= i < p.len() ==> 0 <= #[trigger] p[i] < T::gens_spec(td)
}

/// The state reached from `s` after applying the edges of `p` in order.
pub open spec fn follow<T: Search>(s: T, td: &T::TransitionData, p: Seq<usize>) -> T
    decreases p.len(),
{
    if p.len() == 0 {
        s
    } else {
        follow(s.step_spec(td, p[0] as int), td, p.skip(1))
    }
}

/// `p` drives `s` to the goal.
pub open spec fn is_solution<T: Search>(s: T, td: &T::TransitionData, p: Seq<usize>) -> bool {
    edges_ok::<T>(td, p) && follow(s, td, p).is_goal_spec()
}

/// The heuristic never overestimates the distance to the goal: a heuristic
/// with this property makes the iterative deepening searches complete and
/// their answers shortest.
pub open spec fn admissible<T: Search>(hd: &T::HeuristicData, td: &T::TransitionData) -> bool {
    forall|s: T, p: Seq<usize>|
        s.inv(td) && #[trigger] is_solution(s, td, p) ==> s.h_spec(hd) <= p.len()
}

/// Every state along a followed path stays inside the space.
pub proof fn lemma_follow_inv<T: Search>(s: T, td: &T::TransitionData, hd: &T::HeuristicData, p: Seq<usize>)
    requires
        s.inv(td),
        T::compat(hd, td),
        edges_ok::<T>(td, p),
    ensures
        follow(s, td, p).inv(td),
    decreases p.len(),
{
    if p.len() > 0 {
        s.lemma_step_keeps(hd, td, p[0] as int);
        assert(edges_ok::<T>(td, p.skip(1))) by {
            assert(forall|i: int| 0 <= i < p.skip(1).len()
                ==> #[trigger] p.skip(1)[i] == p[i + 1]);
        }
        lemma_follow_inv(s.step_spec(td, p[0] as int), td, hd, p.skip(1));
    }
}

/// A depth-limited search for a solution of length exactly `remaining`;
/// the iterated driver recovers the usual at-most semantics by probing the
/// lengths in order. `None` is definitive under an admissible heuristic:
/// no solution of this exact length exists.
pub fn dfs<T: Search>(
    s: T,
    hd: &T::HeuristicData,
    td: &T::TransitionData,
    remaining: Depth,
) -> (r: Option<Vec<usize>>)
    requires
        T::compat(hd, td),
        s.inv(td),
    ensures
        r is Some ==> {
            &&& r->0@.len() == remaining
            &&& is_solution(s, td, r->0@)
        },
        r is None && admissible::<T>(hd, td)
            ==> forall|p: Seq<usize>| p.len() == remaining && edges_ok::<T>(td, p)
                ==> !follow(s, td, p).is_goal_spec(),
    decreases remaining,
{
    if remaining == 0 {
        if s.is_goal() {
            proof {
                let e = Seq::<usize>::empty();
                assert(follow(s, td, e) == s);
            }
            return Some(Vec::new());
        } else {
            return None;
        }
    }
    let gens = T::gens(td);
    let mut g: usize = 0;
    while g < gens
        invariant
            g <= gens,
            gens == T::gens_spec(td),
            T::compat(hd, td),
            s.inv(td),
            remaining >= 1,
            admissible::<T>(hd, td)
                ==> forall|p: Seq<usize>| p.len() == remaining && edges_ok::<T>(td, p)
                        && 0 <= #[trigger] p[0] < g
                    ==> !follow(s, td, p).is_goal_spec(),
        decreases gens - g,
    {
        let child = s.step(td, g);
        proof {
            s.lemma_step_keeps(hd, td, g as int);
        }
        let h = child.heuristic(hd);
        if h as usize + 1 <= remaining as usize {
            match dfs(child, hd, td, remaining - 1) {
                Some(mut path) => {
                    let mut out: Vec<usize> = Vec::new();
                    out.push(g);
                    let mut i: usize = 0;
                    while i < path.len()
                        invariant
                            i <= path@.len(),
                            out@.len() == i + 1,
                            out@[0] == g,
                            forall|j: int| 0 <= j < i ==> (#[trigger] out@[j + 1]) == path@[j],
                        decreases path@.len() - i,
                    {
                        out.push(path[i]);
                        i = i + 1;
                    }
                    proof {
                        assert(out@.skip(1) =~= path@);
                        assert(follow(s, td, out@) == follow(child, td, path@));
                        assert(edges_ok::<T>(td, out@)) by {
                            assert forall|i: int| 0 <= i < out@.len()
                                implies 0 <= #[trigger] out@[i] < T::gens_spec(td) by {
                                if i > 0 {
                                    assert(out@[i] == path@[i - 1]);
                                }
                            }
                        }
                    }
                    return Some(out);
                },
                None => {
                    proof {
                        if admissible::<T>(hd, td) {
                            assert forall|p: Seq<usize>|
                                p.len() == remaining && edges_ok::<T>(td, p)
                                    && 0 <= #[trigger] p[0] < g + 1
                                implies !follow(s, td, p).is_goal_spec() by {
                                if p[0] == g as usize {
                                    assert(edges_ok::<T>(td, p.skip(1))) by {
                                        assert(forall|i: int| 0 <= i < p.skip(1).len()
                                            ==> #[trigger] p.skip(1)[i] == p[i + 1]);
                                    }
                                    assert(follow(s, td, p) == follow(child, td, p.skip(1)));
                                }
                            }
                        }
                    }
                },
            }
        } else {
            proof {
                if admissible::<T>(hd, td) {
                    assert forall|p: Seq<usize>|
                        p.len() == remaining && edges_ok::<T>(td, p) && 0 <= #[trigger] p[0] < g + 1
                        implies !follow(s, td, p).is_goal_spec() by {
                        if p[0] == g as usize && follow(s, td, p).is_goal_spec() {
                            assert(edges_ok::<T>(td, p.skip(1))) by {
                                assert(forall|i: int| 0 <= i < p.skip(1).len()
                                    ==> #[trigger] p.skip(1)[i] == p[i + 1]);
                            }
                            assert(follow(s, td, p) == follow(child, td, p.skip(1)));
                            assert(is_solution(child, td, p.skip(1)));
                            assert(child.h_spec(hd) <= p.skip(1).len());
                            assert(false);
                        }
                    }
                }
            }
        }
        g = g + 1;
    }
    proof {
        if admissible::<T>(hd, td) {
            assert forall|p: Seq<usize>| p.len() == remaining && edges_ok::<T>(td, p)
                implies !follow(s, td, p).is_goal_spec() by {
                assert(0 <= p[0] < T::gens_spec(td));
            }
        }
    }
    None
}

/// Iterative-deepening A*: the shallowest depth-limited search that
/// succeeds gives the answer. Under an admissible heuristic the answer is
/// a shortest solution, and `None` means no solution fits the bound.
pub fn ida_star<T: Search>(
    start: T,
    hd: &T::HeuristicData,
    td: &T::TransitionData,
    max_depth: Depth,
) -> (r: Option<Vec<usize>>)
    requires
        T::compat(hd, td),
        start.inv(td),
    ensures
        r is Some ==> {
            &&& r->0@.len() <= max_depth
            &&& is_solution(start, td, r->0@)
        },
        r is Some && admissible::<T>(hd, td)
            ==> forall|p: Seq<usize>| p.len() < r->0@.len() && edges_ok::<T>(td, p)
                ==> !follow(start, td, p).is_goal_spec(),
        r is None && admissible::<T>(hd, td)
            ==> forall|p: Seq<usize>| p.len() <= max_depth && edges_ok::<T>(td, p)
                ==> !follow(start, td, p).is_goal_spec(),
{
    let mut bound: usize = 0;
    while bound <= max_depth as usize
        invariant
            bound <= max_depth as usize + 1,
            T::compat(hd, td),
            start.inv(td),
            admissible::<T>(hd, td)
                ==> forall|p: Seq<usize>| p.len() < bound && edges_ok::<T>(td, p)
                    ==> !follow(start, td, p).is_goal_spec(),
        decreases max_depth as usize + 1 - bound,
    {
        match dfs(start, hd, td, bound as Depth) {
            Some(path) => {
                return Some(path);
            },
            None => {
            },
        }
        bound = bound + 1;
    }
    None
}

} // verus!
verus! {

/// Following one more edge is stepping once more.
pub proof fn lemma_follow_snoc<T: Search>(s: T, td: &T::TransitionData, p: Seq<usize>, e: usize)
    ensures
        follow(s, td, p.push(e)) == follow(s, td, p).step_spec(td, e as int),
    decreases p.len(),
{
    if p.len() == 0 {
        assert(p.push(e)[0] == e);
        assert(p.push(e).skip(1) =~= Seq::<usize>::empty());
        assert(follow(s, td, p.push(e))
            == follow(s.step_spec(td, e as int), td, p.push(e).skip(1)));
        assert(follow(s.step_spec(td, e as int), td, Seq::<usize>::empty())
            == s.step_spec(td, e as int));
        assert(follow(s, td, p) == s);
    } else {
        assert(p.push(e)[0] == p[0]);
        assert(p.push(e).skip(1) =~= p.skip(1).push(e));
        assert(follow(s, td, p.push(e))
            == follow(s.step_spec(td, p[0] as int), td, p.skip(1).push(e)));
        lemma_follow_snoc(s.step_spec(td, p[0] as int), td, p.skip(1), e);
        assert(follow(s, td, p) == follow(s.step_spec(td, p[0] as int), td, p.skip(1)));
    }
}

} // verus!

verus! {

/// Collects every solution of length exactly `remaining` below `s`, in
/// generator order, skipping subtrees the heuristic rules out.
fn dfs_all<T: Search>(
    s: T,
    hd: &T::HeuristicData,
    td: &T::TransitionData,
    remaining: Depth,
) -> (r: Vec<Vec<usize>>)
    requires
        T::compat(hd, td),
        s.inv(td),
    ensures
        forall|i: int| 0 <= i < r.len() ==> {
            &&& (#[trigger] r[i])@.len() == remaining
            &&& is_solution(s, td, r[i]@)
        },
        admissible::<T>(hd, td) ==> forall|p: Seq<usize>|
            p.len() == remaining && #[trigger] is_solution(s, td, p)
            ==> exists|i: int| 0 <= i < r.len() && (#[trigger] r[i]@) == p,
    decreases remaining,
{
    let mut out: Vec<Vec<usize>> = Vec::new();
    if remaining == 0 {
        if s.is_goal() {
            proof {
                assert(follow(s, td, Seq::<usize>::empty()) == s);
            }
            out.push(Vec::new());
            proof {
                assert forall|p: Seq<usize>| p.len() == 0 && #[trigger] is_solution(s, td, p)
                    implies exists|i: int| 0 <= i < out.len() && (#[trigger] out[i]@) == p by {
                    assert(out[0]@ =~= p);
                }
            }
        } else {
            proof {
                assert forall|p: Seq<usize>|
                    p.len() == 0 && #[trigger] is_solution(s, td, p)
                    implies false by {
                    assert(follow(s, td, p) == s);
                }
            }
        }
        return out;
    }
    let gens = T::gens(td);
    let mut g: usize = 0;
    while g < gens
        invariant
            g <= gens,
            gens == T::gens_spec(td),
            T::compat(hd, td),
            s.inv(td),
            remaining >= 1,
            forall|i: int| 0 <= i < out.len() ==> {
                &&& (#[trigger] out[i])@.len() == remaining
                &&& is_solution(s, td, out[i]@)
            },
            admissible::<T>(hd, td) ==> forall|p: Seq<usize>|
                p.len() == remaining && #[trigger] is_solution(s, td, p) && 0 <= p[0] < g
                ==> exists|i: int| 0 <= i < out.len() && (#[trigger] out[i]@) == p,
        decreases gens - g,
    {
        let child = s.step(td, g);
        proof {
            s.lemma_step_keeps(hd, td, g as int);
        }
        let h = child.heuristic(hd);
        if h as usize + 1 <= remaining as usize {
            let subs = dfs_all(child, hd, td, remaining - 1);
            let mut k: usize = 0;
            while k < subs.len()
                invariant
                    k <= subs@.len(),
                    g < gens == T::gens_spec(td),
                    T::compat(hd, td),
                    s.inv(td),
                    child == s.step_spec(td, g as int),
                    remaining >= 1,
                    forall|i: int| 0 <= i < subs@.len() ==> {
                        &&& (#[trigger] subs@[i])@.len() == remaining - 1
                        &&& is_solution(child, td, subs@[i]@)
                    },
                    forall|i: int| 0 <= i < out.len() ==> {
                        &&& (#[trigger] out[i])@.len() == remaining
                        &&& is_solution(s, td, out[i]@)
                    },
                    admissible::<T>(hd, td) ==> forall|p: Seq<usize>|
                        p.len() == remaining && #[trigger] is_solution(s, td, p) && 0 <= p[0] < g
                        ==> exists|i: int| 0 <= i < out.len() && (#[trigger] out[i]@) == p,
                    forall|l: int| 0 <= l < k ==> exists|i: int|
                        0 <= i < out.len()
                        && (#[trigger] out[i]@) == seq![g].add(#[trigger] subs@[l]@),
                decreases subs@.len() - k,
            {
                let sub = &subs[k];
                let mut path: Vec<usize> = Vec::new();
                path.push(g);
                let mut j: usize = 0;
                while j < sub.len()
                    invariant
                        j <= sub@.len(),
                        path@.len() == j + 1,
                        path@[0] == g,
                        forall|l: int| 0 <= l < j ==> (#[trigger] path@[l + 1]) == sub@[l],
                    decreases sub@.len() - j,
                {
                    path.push(sub[j]);
                    j = j + 1;
                }
                proof {
                    assert(path@.skip(1) =~= subs@[k as int]@);
                    assert(follow(s, td, path@) == follow(child, td, subs@[k as int]@));
                    assert(edges_ok::<T>(td, path@)) by {
                        assert forall|l: int| 0 <= l < path@.len()
                            implies 0 <= #[trigger] path@[l] < T::gens_spec(td) by {
                            if l > 0 {
                                assert(path@[l] == subs@[k as int]@[l - 1]);
                            }
                        }
                    }
                }
                proof {
                    assert(path@ =~= seq![g].add(subs@[k as int]@));
                }
                let ghost pre_out = out@;
                out.push(path);
                proof {
                    assert(out[out.len() - 1]@ == seq![g].add(subs@[k as int]@));
                    assert(forall|i: int| 0 <= i < pre_out.len()
                        ==> (#[trigger] out@[i]) == pre_out[i]);
                    assert forall|l: int| 0 <= l < k + 1 implies exists|i: int|
                        0 <= i < out.len()
                        && (#[trigger] out[i]@) == seq![g].add(#[trigger] subs@[l]@) by {
                        if l < k {
                            let i = choose|i: int| 0 <= i < pre_out.len()
                                && (#[trigger] pre_out[i]@) == seq![g].add(subs@[l]@);
                            assert(out[i]@ == seq![g].add(subs@[l]@));
                        } else {
                            assert(out[out.len() - 1]@ == seq![g].add(subs@[l]@));
                        }
                    }
                    if admissible::<T>(hd, td) {
                        assert forall|p: Seq<usize>|
                            p.len() == remaining && #[trigger] is_solution(s, td, p)
                                && 0 <= p[0] < g
                            implies exists|i: int|
                                0 <= i < out.len() && (#[trigger] out[i]@) == p by {
                            let i = choose|i: int| 0 <= i < pre_out.len()
                                && (#[trigger] pre_out[i]@) == p;
                            assert(out[i]@ == p);
                        }
                    }
                }
                k = k + 1;
            }
            proof {
                if admissible::<T>(hd, td) {
                    assert forall|p: Seq<usize>|
                        p.len() == remaining && #[trigger] is_solution(s, td, p)
                            && 0 <= p[0] < g + 1
                        implies exists|i: int|
                            0 <= i < out.len() && (#[trigger] out[i]@) == p by {
                        if p[0] == g as usize {
                            assert(edges_ok::<T>(td, p.skip(1))) by {
                                assert(forall|l: int| 0 <= l < p.skip(1).len()
                                    ==> #[trigger] p.skip(1)[l] == p[l + 1]);
                            }
                            assert(follow(s, td, p) == follow(child, td, p.skip(1)));
                            assert(is_solution(child, td, p.skip(1)));
                            let l = choose|l: int| 0 <= l < subs.len()
                                && (#[trigger] subs[l]@) == p.skip(1);
                            let i = choose|i: int| 0 <= i < out.len()
                                && (#[trigger] out[i]@) == seq![g].add(subs@[l]@);
                            assert(out[i]@ =~= p);
                        }
                    }
                }
            }
        } else {
            proof {
                if admissible::<T>(hd, td) {
                    assert forall|p: Seq<usize>|
                        p.len() == remaining && #[trigger] is_solution(s, td, p)
                            && 0 <= p[0] < g + 1
                        implies exists|i: int|
                            0 <= i < out.len() && (#[trigger] out[i]@) == p by {
                        if p[0] == g as usize {
                            assert(edges_ok::<T>(td, p.skip(1))) by {
                                assert(forall|l: int| 0 <= l < p.skip(1).len()
                                    ==> #[trigger] p.skip(1)[l] == p[l + 1]);
                            }
                            assert(follow(s, td, p) == follow(child, td, p.skip(1)));
                            assert(is_solution(child, td, p.skip(1)));
                            assert(child.h_spec(hd) <= p.skip(1).len());
                            assert(false);
                        }
                    }
                }
            }
        }
        g = g + 1;
    }
    proof {
        if admissible::<T>(hd, td) {
            assert forall|p: Seq<usize>|
                p.len() == remaining && #[trigger] is_solution(s, td, p)
                implies 0 <= p[0] < gens by {
                assert(0 <= p[0] < T::gens_spec(td));
            }
        }
    }
    out
}

/// A pull iterator over the solutions of one state, yielded in
/// non-decreasing length: all solutions of one length are prepared
/// together, and deeper lengths are not explored until asked for. The
/// ghost `emitted` field records every solution handed out, so exhaustion
/// can promise that nothing was missed.
pub struct DFSIterator<'a, T: Search> {
    pub hd: &'a T::HeuristicData,
    pub td: &'a T::TransitionData,
    pub start: T,
    pub bound: usize,
    pub max: usize,
    pub queue: Vec<Vec<usize>>,
    pub qpos: usize,
    pub emitted: Ghost<Seq<Seq<usize>>>,
}

impl<'a, T: Search> DFSIterator<'a, T> {
    /// Well-formedness: whatever is queued or was emitted solves the start
    /// state, queued paths belong to the depth below the current bound,
    /// and, under an admissible heuristic, every short-enough solution is
    /// either already emitted or still queued.
    pub open spec fn wf(self) -> bool {
        &&& T::compat(self.hd, self.td)
        &&& self.start.inv(self.td)
        &&& self.max <= 255
        &&& self.bound <= self.max + 1
        &&& self.qpos <= self.queue@.len()
        &&& forall|i: int| 0 <= i < self.queue@.len()
            ==> is_solution(self.start, self.td, (#[trigger] self.queue@[i])@)
        &&& forall|i: int| 0 <= i < self.queue@.len()
            ==> (#[trigger] self.queue@[i])@.len() + 1 == self.bound
        &&& forall|i: int| 0 <= i < self.emitted@.len()
            ==> is_solution(self.start, self.td, #[trigger] self.emitted@[i])
        &&& (admissible::<T>(self.hd, self.td) ==> forall|p: Seq<usize>|
            #[trigger] is_solution(self.start, self.td, p) && p.len() < self.bound
            ==> self.emitted@.contains(p)
                || exists|i: int| self.qpos <= i < self.queue@.len()
                    && (#[trigger] self.queue@[i])@ == p)
    }

    /// The next solution, or `None` once every length up to the bound has
    /// been exhausted. A yielded path always has length one below the
    /// bound the iterator then holds, so lengths never decrease across
    /// calls; under an admissible heuristic, `None` means every solution
    /// within the bound was already handed out.
    pub fn next(&mut self) -> (r: Option<Vec<usize>>)
        requires
            old(self).wf(),
        ensures
            final(self).wf(),
            final(self).hd == old(self).hd,
            final(self).td == old(self).td,
            final(self).start == old(self).start,
            final(self).max == old(self).max,
            final(self).bound >= old(self).bound,
            r is Some ==> is_solution(old(self).start, old(self).td, r->0@),
            r is Some ==> r->0@.len() + 1 == final(self).bound,
            r is Some ==> final(self).emitted@ == old(self).emitted@.push(r->0@),
            r is None ==> final(self).emitted@ == old(self).emitted@,
            r is None && admissible::<T>(old(self).hd, old(self).td)
                ==> forall|p: Seq<usize>|
                    #[trigger] is_solution(old(self).start, old(self).td, p)
                        && p.len() <= old(self).max
                    ==> final(self).emitted@.contains(p),
    {
        loop
            invariant
                self.wf(),
                self.hd == old(self).hd,
                self.td == old(self).td,
                self.start == old(self).start,
                self.max == old(self).max,
                self.bound >= old(self).bound,
                self.emitted@ == old(self).emitted@,
            decreases self.max + 2 - self.bound, self.queue@.len() - self.qpos,
        {
            if self.qpos < self.queue.len() {
                let mut path: Vec<usize> = Vec::new();
                let sub = &self.queue[self.qpos];
                let mut j: usize = 0;
                while j < sub.len()
                    invariant
                        j <= sub@.len(),
                        sub == self.queue@[self.qpos as int],
                        self.qpos < self.queue@.len(),
                        path@.len() == j,
                        forall|l: int| 0 <= l < j ==> (#[trigger] path@[l]) == sub@[l],
                    decreases sub@.len() - j,
                {
                    path.push(sub[j]);
                    j = j + 1;
                }
                proof {
                    assert(path@ =~= self.queue@[self.qpos as int]@);
                }
                let ghost pre = *self;
                self.qpos = self.qpos + 1;
                proof {
                    self.emitted@ = pre.emitted@.push(path@);
                }
                proof {
                    if admissible::<T>(self.hd, self.td) {
                        assert forall|p: Seq<usize>|
                            #[trigger] is_solution(self.start, self.td, p)
                                && p.len() < self.bound
                            implies self.emitted@.contains(p)
                                || exists|i: int| self.qpos <= i < self.queue@.len()
                                    && (#[trigger] self.queue@[i])@ == p by {
                            if pre.emitted@.contains(p) {
                                let i = choose|i: int| 0 <= i < pre.emitted@.len()
                                    && pre.emitted@[i] == p;
                                assert(self.emitted@[i] == p);
                            } else if exists|i: int| pre.qpos <= i < pre.queue@.len()
                                && (#[trigger] pre.queue@[i])@ == p {
                                let i = choose|i: int| pre.qpos <= i < pre.queue@.len()
                                    && (#[trigger] pre.queue@[i])@ == p;
                                if i == pre.qpos {
                                    assert(self.emitted@[self.emitted@.len() - 1] == p);
                                } else {
                                    assert(self.qpos <= i < self.queue@.len());
                                    assert((self.queue@[i])@ == p);
                                }
                            }
                        }
                    }
                }
                return Some(path);
            }
            if self.bound > self.max {
                proof {
                    if admissible::<T>(self.hd, self.td) {
                        assert forall|p: Seq<usize>|
                            #[trigger] is_solution(self.start, self.td, p)
                                && p.len() <= self.max
                            implies self.emitted@.contains(p) by {
                            assert(p.len() < self.bound);
                        }
                    }
                }
                return None;
            }
            let next_queue = dfs_all(self.start, self.hd, self.td, self.bound as Depth);
            let ghost pre = *self;
            self.queue = next_queue;
            self.qpos = 0;
            self.bound = self.bound + 1;
            proof {
                if admissible::<T>(self.hd, self.td) {
                    assert forall|p: Seq<usize>|
                        #[trigger] is_solution(self.start, self.td, p) && p.len() < self.bound
                        implies self.emitted@.contains(p)
                            || exists|i: int| self.qpos <= i < self.queue@.len()
                                && (#[trigger] self.queue@[i])@ == p by {
                        if p.len() < pre.bound {
                            assert(pre.emitted@.contains(p));
                        } else {
                            assert(p.len() == pre.bound);
                            let i = choose|i: int| 0 <= i < self.queue@.len()
                                && (#[trigger] self.queue@[i]@) == p;
                            assert(self.queue@[i]@ == p);
                        }
                    }
                }
            }
        }
    }
}

/// The lazy iterative-deepening enumerator: solutions of the start state in
/// non-decreasing length, bounded by `max_depth` when one is given.
pub fn ida_iter<'a, T: Search>(
    start: T,
    heuristic_data: &'a T::HeuristicData,
    transition_data: &'a T::TransitionData,
    max_depth: Option<Depth>,
) -> (r: DFSIterator<'a, T>)
    requires
        T::compat(heuristic_data, transition_data),
        start.inv(transition_data),
    ensures
        r.wf(),
        r.hd == heuristic_data,
        r.td == transition_data,
        r.start == start,
        r.emitted@ == Seq::<Seq<usize>>::empty(),
        max_depth is Some ==> r.max == max_depth->0,
        max_depth is None ==> r.max == 255,
{
    let max: usize = match max_depth {
        Some(d) => d as usize,
        None => 255,
    };
    DFSIterator {
        hd: heuristic_data,
        td: transition_data,
        start,
        bound: 0,
        max,
        queue: Vec::new(),
        qpos: 0,
        emitted: Ghost(Seq::empty()),
    }
}

} // verus!

verus! {

/// Following a concatenation is following the parts in turn.
pub proof fn lemma_follow_append<T: Search>(s: T, td: &T::TransitionData, a: Seq<usize>, b: Seq<usize>)
    ensures
        follow(s, td, a.add(b)) == follow(follow(s, td, a), td, b),
    decreases a.len(),
{
    if a.len() == 0 {
        assert(a.add(b) =~= b);
    } else {
        assert(a.add(b)[0] == a[0]);
        assert(a.add(b).skip(1) =~= a.skip(1).add(b));
        lemma_follow_append(s.step_spec(td, a[0] as int), td, a.skip(1), b);
    }
}

} // verus!
