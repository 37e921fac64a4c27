use vstd::prelude::*;

verus! {

/// A precomputed map from (coordinate, generator index) to coordinate,
/// stored row-major by coordinate.
pub struct Table {
    size: usize,
    gens: usize,
    data: Vec<u32>,
}

impl Table {
    /// The number of coordinates.
    pub closed spec fn size_spec(self) -> int {
        self.size as int
    }

    /// The number of generators.
    pub closed spec fn gens_spec(self) -> int {
        self.gens as int
    }

    /// The stored transition of coordinate `c` under generator `g`.
    pub closed spec fn entry(self, c: int, g: int) -> int {
        self.data@[c * self.gens + g] as int
    }

    /// The stored entries fill one row per coordinate.
    pub closed spec fn storage_full(self) -> bool {
        self.data@.len() == self.size_spec() * self.gens_spec()
    }

    /// Well-formedness: a full rectangle of in-range coordinates.
    pub open spec fn wf(self) -> bool {
        &&& self.storage_full()
        &&& self.size_spec() * self.gens_spec() <= 0xffff_ffff
        &&& 1 <= self.size_spec() <= 0xffff_ffff
        &&& 1 <= self.gens_spec()
        &&& forall|c: int, g: int| 0 <= c < self.size_spec() && 0 <= g < self.gens_spec()
            ==> 0 <= #[trigger] self.entry(c, g) < self.size_spec()
    }

    /// Builds a table over `size` coordinates and `gens` generators from
    /// its row-major entries.
    pub fn new(size: usize, gens: usize, entries: Vec<u32>) -> (r: Table)
        requires
            1 <= size <= 0xffff_ffff,
            1 <= gens,
            size * gens <= 0xffff_ffff,
            entries@.len() == size * gens,
            forall|i: int| 0 <= i < entries@.len() ==> (#[trigger] entries@[i]) < size,
        ensures
            r.wf(),
            r.size_spec() == size,
            r.gens_spec() == gens,
            forall|c: int, g: int| 0 <= c < size && 0 <= g < gens
                ==> #[trigger] r.entry(c, g) == entries@[c * gens + g],
    {
        let r = Table { size, gens, data: entries };
        proof {
            assert forall|c: int, g: int| 0 <= c < size && 0 <= g < gens
                implies 0 <= #[trigger] r.entry(c, g) < r.size_spec() by {
                assert(0 <= c * gens + g < size * gens) by (nonlinear_arith)
                    requires 0 <= c < size, 0 <= g < gens;
            }
        }
        r
    }

    /// Looks up the coordinate that `position` becomes under the generator
    /// with index `generator_index`.
    pub fn lookup(&self, position: usize, generator_index: usize) -> (r: usize)
        requires
            self.wf(),
            position < self.size_spec(),
            generator_index < self.gens_spec(),
        ensures
            r == self.entry(position as int, generator_index as int),
            0 <= r < self.size_spec(),
    {
        proof {
            assert(0 <= position * self.gens + generator_index < self.size * self.gens)
                by (nonlinear_arith)
                requires 0 <= position < self.size, 0 <= generator_index < self.gens;
        }
        self.data[position * self.gens + generator_index] as usize
    }

    /// The number of coordinates, as a value.
    pub fn size(&self) -> (r: usize)
        ensures
            r == self.size_spec(),
    {
        self.size
    }

    /// The number of generators, as a value.
    pub fn gens(&self) -> (r: usize)
        ensures
            r == self.gens_spec(),
    {
        self.gens
    }
}

/// Whether coordinate `x` can be reached from `goal` in at most `d`
/// applications of stored transitions.
pub open spec fn reaches(t: Table, goal: int, x: int, d: int) -> bool
    decreases d,
{
    if d <= 0 {
        x == goal
    } else {
        x == goal || exists|y: int, g: int|
            0 <= y < t.size_spec() && 0 <= g < t.gens_spec()
            && reaches(t, goal, y, d - 1) && #[trigger] t.entry(y, g) == x
    }
}

/// One more transition extends reachability by one step.
pub proof fn lemma_reaches_step(t: Table, goal: int, y: int, g: int, d: int)
    requires
        reaches(t, goal, y, d),
        0 <= y < t.size_spec(),
        0 <= g < t.gens_spec(),
        d >= 0,
    ensures
        reaches(t, goal, t.entry(y, g), d + 1),
{
}

} // verus!

verus! {

/// Generator `g2` undoes generator `g` on every coordinate of the table.
pub open spec fn is_inverse_gen(t: Table, g: int, g2: int) -> bool {
    forall|c: int| 0 <= c < t.size_spec()
        ==> t.entry(#[trigger] t.entry(c, g), g2) == c
}

/// Some generator of the table undoes generator `g`.
pub open spec fn has_inverse(t: Table, g: int) -> bool {
    exists|g2: int| 0 <= g2 < t.gens_spec() && #[trigger] is_inverse_gen(t, g, g2)
}

/// Every generator of the table has an inverse generator.
pub open spec fn table_has_inverses(t: Table) -> bool {
    forall|g: int| 0 <= g < t.gens_spec() ==> #[trigger] has_inverse(t, g)
}

impl Table {
    /// Checks that the generator with index `inverses[g]` undoes generator
    /// `g`, for every generator: a positive answer establishes that the
    /// table is closed under inverses.
    pub fn check_inverses(&self, inverses: &Vec<usize>) -> (r: bool)
        requires
            self.wf(),
            inverses@.len() == self.gens_spec(),
            forall|g: int| 0 <= g < inverses@.len() ==> (#[trigger] inverses@[g]) < self.gens_spec(),
        ensures
            r ==> table_has_inverses(*self),
    {
        let gens = self.gens();
        let size = self.size();
        let mut g: usize = 0;
        while g < gens
            invariant
                g <= gens,
                self.wf(),
                gens == self.gens_spec(),
                size == self.size_spec(),
                inverses@.len() == gens,
                forall|x: int| 0 <= x < gens ==> (#[trigger] inverses@[x]) < gens,
                forall|x: int| 0 <= x < g ==> #[trigger] has_inverse(*self, x),
            decreases gens - g,
        {
            let g2 = inverses[g];
            let mut c: usize = 0;
            while c < size
                invariant
                    c <= size,
                    self.wf(),
                    gens == self.gens_spec(),
                    size == self.size_spec(),
                    g < gens,
                    g2 < gens,
                    forall|x: int| 0 <= x < c
                        ==> self.entry(#[trigger] self.entry(x, g as int), g2 as int) == x,
                decreases size - c,
            {
                let mid = self.lookup(c, g);
                if self.lookup(mid, g2) != c {
                    return false;
                }
                c = c + 1;
            }
            proof {
                assert(is_inverse_gen(*self, g as int, g2 as int));
            }
            g = g + 1;
        }
        true
    }
}

} // verus!
