use vstd::prelude::*;

verus! {

use crate::transition::{Table as Transitions, reaches, lemma_reaches_step};

/// A search depth: the unit the pruning tables and the searches count in.
pub type Depth = u8;

/// A lower bound on the distance to the goal coordinate, for every
/// coordinate of one space, filled by a breadth-first flood from the goal.
pub struct Table {
    data: Vec<u8>,
}

/// The local flood property: wherever the flood assigned a small depth, no
/// successor's depth is more than one greater.
pub open spec fn flood_consistent(t: Transitions, s: Seq<u8>) -> bool {
    forall|x: int, g: int|
        0 <= x < t.size_spec() && 0 <= g < t.gens_spec() && s[x] <= 253
        ==> s[#[trigger] t.entry(x, g)] <= s[x] + 1
}

/// A flood-consistent assignment bounds every distance from the goal.
pub proof fn lemma_flood_admissible(t: Transitions, goal: int, s: Seq<u8>, x: int, d: int)
    requires
        t.wf(),
        s.len() == t.size_spec(),
        0 <= goal < t.size_spec(),
        s[goal] == 0,
        flood_consistent(t, s),
        0 <= x < t.size_spec(),
        0 <= d <= 253,
        reaches(t, goal, x, d),
    ensures
        s[x] <= d,
    decreases d,
{
    if x == goal {
    } else if d > 0 {
        let (y, g) = choose|y: int, g: int|
            0 <= y < t.size_spec() && 0 <= g < t.gens_spec()
            && reaches(t, goal, y, d - 1) && #[trigger] t.entry(y, g) == x;
        lemma_flood_admissible(t, goal, s, y, d - 1);
        assert(s[t.entry(y, g)] <= s[y] + 1);
    }
}

impl Table {
    /// The stored lower bound for coordinate `c`.
    pub closed spec fn depth(self, c: int) -> int {
        self.data@[c] as int
    }

    /// How many coordinates the table covers.
    pub closed spec fn len_spec(self) -> int {
        self.data@.len() as int
    }

    /// Well-formedness: every entry is a small depth.
    pub open spec fn wf(self) -> bool {
        forall|c: int| 0 <= c < self.len_spec() ==> 0 <= #[trigger] self.depth(c) <= 254
    }

    /// Floods the coordinate space breadth-first from `goal` along the
    /// transitions of `t`. Every entry understates or meets the true
    /// distance from the goal, and a positive entry is itself a distance
    /// bound; a coordinate the flood never saw reports zero.
    pub fn new(t: &Transitions, goal: usize) -> (r: Table)
        requires
            t.wf(),
            goal < t.size_spec(),
        ensures
            r.len_spec() == t.size_spec(),
            r.wf(),
            r.depth(goal as int) == 0,
            forall|x: int, d: int|
                0 <= x < t.size_spec() && 0 <= d <= 253 && #[trigger] reaches(*t, goal as int, x, d)
                ==> r.depth(x) <= d,
            forall|x: int| 0 <= x < t.size_spec() && #[trigger] r.depth(x) > 0
                ==> reaches(*t, goal as int, x, r.depth(x)),
            forall|x: int| 0 <= x < t.size_spec() && #[trigger] r.depth(x) == 0 && x != goal
                ==> !reaches(*t, goal as int, x, 253),
    {
        let size = t.size();
        let gens = t.gens();
        let ghost gt = *t;
        let ghost gl = goal as int;
        let mut data: Vec<u8> = Vec::new();
        let mut i: usize = 0;
        while i < size
            invariant
                i <= size,
                data@.len() == i,
                forall|c: int| 0 <= c < i ==> (#[trigger] data@[c]) == 255u8,
            decreases size - i,
        {
            data.push(255);
            i = i + 1;
        }
        data.set(goal, 0);
        let mut depth: u8 = 0;
        loop
            invariant_except_break
                t.wf(),
                gt == *t,
                gl == goal as int,
                size == t.size_spec(),
                gens == t.gens_spec(),
                goal < size,
                depth <= 254,
                data@.len() == size,
                data@[gl] == 0,
                forall|x: int| 0 <= x < size && x != gl ==> (#[trigger] data@[x]) != 0u8,
                // every entry is a level at most one past the current one, or untouched
                forall|x: int| 0 <= x < size ==>
                    (#[trigger] data@[x]) <= depth || data@[x] == 255u8,
                // whatever was assigned is a true distance bound
                forall|x: int| 0 <= x < size && (#[trigger] data@[x]) < 255
                    ==> reaches(gt, gl, x, data@[x] as int),
                // levels below the current one are fully processed
                forall|x: int, g: int|
                    0 <= x < size && 0 <= g < gens && data@[x] < depth
                    ==> data@[#[trigger] gt.entry(x, g)] <= data@[x] + 1,
            ensures
                data@.len() == size,
                data@[gl] == 0,
                forall|x: int| 0 <= x < size && x != gl ==> (#[trigger] data@[x]) != 0u8,
                forall|x: int| 0 <= x < size ==>
                    (#[trigger] data@[x]) <= 254 || data@[x] == 255u8,
                forall|x: int| 0 <= x < size && (#[trigger] data@[x]) < 255
                    ==> reaches(gt, gl, x, data@[x] as int),
                flood_consistent(gt, data@),
            decreases 254 - depth,
        {
            if depth >= 254 {
                proof {
                    assert forall|x: int, g: int|
                        0 <= x < gt.size_spec() && 0 <= g < gt.gens_spec() && data@[x] <= 253
                        implies data@[#[trigger] gt.entry(x, g)] <= data@[x] + 1 by {
                        assert(data@[x] < depth);
                    }
                }
                break;
            }
            let mut found = false;
            let mut c: usize = 0;
            while c < size
                invariant
                    t.wf(),
                    gt == *t,
                    gl == goal as int,
                    size == t.size_spec(),
                    gens == t.gens_spec(),
                    goal < size,
                    depth < 254,
                    c <= size,
                    data@.len() == size,
                    data@[gl] == 0,
                    forall|x: int| 0 <= x < size && x != gl ==> (#[trigger] data@[x]) != 0u8,
                    forall|x: int| 0 <= x < size ==>
                        (#[trigger] data@[x]) <= depth + 1 || data@[x] == 255u8,
                    forall|x: int| 0 <= x < size && (#[trigger] data@[x]) < 255
                        ==> reaches(gt, gl, x, data@[x] as int),
                    forall|x: int, g: int|
                        0 <= x < size && 0 <= g < gens && data@[x] < depth
                        ==> data@[#[trigger] gt.entry(x, g)] <= data@[x] + 1,
                    forall|x: int, g: int|
                        0 <= x < c && 0 <= g < gens && data@[x] == depth
                        ==> data@[#[trigger] gt.entry(x, g)] <= depth + 1,
                    !found ==> forall|x: int| 0 <= x < c ==> (#[trigger] data@[x]) != depth,
                    !found ==> forall|x: int| 0 <= x < size ==>
                        (#[trigger] data@[x]) <= depth || data@[x] == 255u8,
                decreases size - c,
            {
                if data[c] == depth {
                    found = true;
                    let mut g: usize = 0;
                    while g < gens
                        invariant
                            t.wf(),
                            gt == *t,
                            gl == goal as int,
                            size == t.size_spec(),
                            gens == t.gens_spec(),
                            goal < size,
                            depth < 254,
                            c < size,
                            g <= gens,
                            data@.len() == size,
                            data@[gl] == 0,
                            forall|x: int| 0 <= x < size && x != gl ==> (#[trigger] data@[x]) != 0u8,
                            data@[c as int] == depth,
                            forall|x: int| 0 <= x < size ==>
                                (#[trigger] data@[x]) <= depth + 1 || data@[x] == 255u8,
                            forall|x: int| 0 <= x < size && (#[trigger] data@[x]) < 255
                                ==> reaches(gt, gl, x, data@[x] as int),
                            forall|x: int, g2: int|
                                0 <= x < size && 0 <= g2 < gens && data@[x] < depth
                                ==> data@[#[trigger] gt.entry(x, g2)] <= data@[x] + 1,
                            forall|x: int, g2: int|
                                0 <= x < c && 0 <= g2 < gens && data@[x] == depth
                                ==> data@[#[trigger] gt.entry(x, g2)] <= depth + 1,
                            forall|g2: int| 0 <= g2 < g
                                ==> data@[#[trigger] gt.entry(c as int, g2)] <= depth + 1,
                        decreases gens - g,
                    {
                        let n = t.lookup(c, g);
                        if data[n] > depth + 1 {
                            proof {
                                lemma_reaches_step(gt, gl, c as int, g as int, depth as int);
                            }
                            data.set(n, depth + 1);
                        }
                        g = g + 1;
                    }
                }
                c = c + 1;
            }
            if !found {
                proof {
                    assert forall|x: int, g: int|
                        0 <= x < gt.size_spec() && 0 <= g < gt.gens_spec() && data@[x] <= 253
                        implies data@[#[trigger] gt.entry(x, g)] <= data@[x] + 1 by {
                        assert(data@[x] != depth);
                        assert(data@[x] < depth);
                    }
                }
                break;
            }
            depth = depth + 1;
        }
        // whatever the flood never reached reports zero
        let ghost pre = data@;
        let mut c: usize = 0;
        while c < size
            invariant
                size == t.size_spec(),
                gt == *t,
                gl == goal as int,
                goal < size,
                data@.len() == size,
                pre.len() == size,
                data@[gl] == 0 || (gl >= c && pre[gl] == 0),
                forall|x: int| 0 <= x < size && x != gl ==> (#[trigger] pre[x]) != 0u8,
                forall|x: int| 0 <= x < size && (#[trigger] pre[x]) < 255
                    ==> reaches(gt, gl, x, pre[x] as int),
                forall|x: int| c <= x < size ==> (#[trigger] data@[x]) == pre[x],
                forall|x: int| 0 <= x < c ==>
                    (#[trigger] data@[x]) == if pre[x] == 255 { 0u8 } else { pre[x] },
                forall|x: int| 0 <= x < size ==> (#[trigger] pre[x]) <= 254 || pre[x] == 255u8,
            decreases size - c,
        {
            if data[c] == 255 {
                data.set(c, 0);
            }
            c = c + 1;
        }
        let r = Table { data };
        proof {
            assert forall|x: int, d: int|
                0 <= x < t.size_spec() && 0 <= d <= 253 && #[trigger] reaches(*t, gl, x, d)
                implies r.depth(x) <= d by {
                lemma_flood_admissible(gt, gl, pre, x, d);
            }
            // a zero entry away from the goal can only be a finalised
            // sentinel, and a sentinel marks an unreachable coordinate
            assert forall|x: int|
                0 <= x < t.size_spec() && #[trigger] r.depth(x) == 0 && x != gl
                implies !reaches(*t, gl, x, 253) by {
                assert(pre[x] == 255);
                if reaches(gt, gl, x, 253) {
                    lemma_flood_admissible(gt, gl, pre, x, 253);
                }
            }
        }
        r
    }

    /// The stored lower bound for `position`.
    pub fn lookup(&self, position: usize) -> (r: Depth)
        requires
            position < self.len_spec(),
        ensures
            r == self.depth(position as int),
    {
        self.data[position]
    }

    /// How many coordinates the table covers.
    pub fn len(&self) -> (r: usize)
        ensures
            r == self.len_spec(),
    {
        self.data.len()
    }
}

} // verus!
