use vstd::prelude::*;

verus! {

use crate::definitions::{Array, PermutationCoord, is_valid, id_seq, compose, lehmer, p_canon, p_dec};
use crate::tables::PermutationTable;
use crate::util::fact;

/// The permutation component of a sequence of pairs.
pub open spec fn perm_view(s: Seq<(u8, u8)>) -> Seq<u8> {
    s.map_values(|p: (u8, u8)| p.0)
}

/// An array holding each of the elements `0 .. N` exactly once, in any
/// order: a pure permutation without orientations.
#[derive(Clone, Debug, Eq, PartialEq)]
pub struct PermutationArray<const N: usize> {
    pub arr: Array<N, 1>,
}

impl<const N: usize> View for PermutationArray<N> {
    type V = Seq<u8>;

    open spec fn view(&self) -> Seq<u8> {
        perm_view(self.arr@)
    }
}

impl<const N: usize> PermutationArray<N> {
    /// Well-formedness: the inner array is a valid cubie array.
    pub open spec fn wf(self) -> bool {
        self.arr.wf()
    }

    /// The identity permutation.
    pub fn identity() -> (r: Self)
        requires
            N <= 256,
        ensures
            r@ == perm_view(id_seq(N as nat)),
            r.wf(),
    {
        PermutationArray { arr: Array::identity() }
    }

    /// Builds a permutation array from its raw element list, which must
    /// hold every element below `N` exactly once.
    pub fn new(candidate: Vec<u8>) -> (r: Self)
        requires
            candidate@.len() == N,
            forall|i: int| 0 <= i < N ==> (#[trigger] candidate@[i]) < N,
            forall|i: int, j: int| 0 <= i < j < N ==> candidate@[i] != candidate@[j],
        ensures
            r@ == candidate@,
            r.wf(),
    {
        let mut pairs: Vec<(u8, u8)> = Vec::new();
        let mut i: usize = 0;
        while i < N
            invariant
                i <= N,
                candidate@.len() == N,
                pairs@.len() == i,
                forall|j: int| 0 <= j < i ==> (#[trigger] pairs@[j]) == (candidate@[j], 0u8),
            decreases N - i,
        {
            pairs.push((candidate[i], 0));
            i = i + 1;
        }
        proof {
            assert(is_valid(pairs@, N as nat, 1));
        }
        let r = PermutationArray { arr: Array::new(pairs) };
        proof {
            assert(r@ =~= candidate@);
        }
        r
    }

    /// Composes this permutation with the argument: position `i` of the
    /// result receives the element this array holds where the argument
    /// routes `i`.
    pub fn permute(&self, permutation: &Self) -> (r: Self)
        requires
            self.wf(),
            permutation.wf(),
        ensures
            r@ == perm_view(compose(self.arr@, permutation.arr@, 1)),
            r.wf(),
    {
        PermutationArray { arr: self.arr.permute(&permutation.arr) }
    }

    /// Composes in place.
    pub fn permute_(&mut self, permutation: &Self)
        requires
            old(self).wf(),
            permutation.wf(),
        ensures
            final(self)@ == perm_view(compose(old(self).arr@, permutation.arr@, 1)),
            final(self).wf(),
    {
        *self = PermutationArray { arr: self.arr.permute(&permutation.arr) };
    }

    /// The Lehmer-code coordinate of this permutation.
    pub fn coordinate(&self) -> (r: Coordinate<N>)
        requires
            self.wf(),
            1 <= N <= 12,
        ensures
            r@ == lehmer(self.arr@),
            r.wf(),
    {
        Coordinate { c: self.arr.p_coordinate() }
    }
}

/// The coordinate of a pure permutation of `N` elements: an integer in
/// `[0, N!)`.
#[derive(Clone, Copy, Debug, Default, Eq, PartialEq)]
pub struct Coordinate<const N: usize> {
    pub c: PermutationCoord<N>,
}

impl<const N: usize> View for Coordinate<N> {
    type V = int;

    open spec fn view(&self) -> int {
        self.c@
    }
}

impl<const N: usize> Coordinate<N> {
    /// Well-formedness: the value lies inside the coordinate space.
    pub open spec fn wf(self) -> bool {
        self.c.wf()
    }

    /// The coordinate with the given value; `None` when it is out of range.
    pub fn try_from(value: usize) -> (r: Option<Self>)
        requires
            1 <= N <= 12,
        ensures
            r is Some <==> value < fact(N as nat),
            r is Some ==> r->0@ == value && r->0.wf(),
    {
        match PermutationCoord::<N>::try_from(value) {
            Some(c) => Some(Coordinate { c }),
            None => None,
        }
    }

    /// Every coordinate of this space, in increasing order.
    pub fn all() -> (r: Vec<Self>)
        requires
            1 <= N <= 12,
        ensures
            r.len() == fact(N as nat),
            forall|i: int| 0 <= i < r.len() ==> (#[trigger] r[i])@ == i && r[i].wf(),
    {
        let inner = PermutationCoord::<N>::all();
        let mut out: Vec<Self> = Vec::new();
        let mut i: usize = 0;
        while i < inner.len()
            invariant
                i <= inner@.len(),
                forall|j: int| 0 <= j < inner@.len()
                    ==> (#[trigger] inner@[j])@ == j && inner@[j].wf(),
                out@.len() == i,
                forall|j: int| 0 <= j < i ==> (#[trigger] out@[j])@ == j && out@[j].wf(),
            decreases inner@.len() - i,
        {
            out.push(Coordinate { c: inner[i] });
            i = i + 1;
        }
        out
    }

    /// The permutation this coordinate decodes to: the inverse of
    /// `PermutationArray::coordinate`.
    pub fn permutation_array(&self) -> (r: PermutationArray<N>)
        requires
            1 <= N <= 12,
            self.wf(),
        ensures
            r.wf(),
            r@.len() == N,
            forall|i: int| 0 <= i < N ==> (#[trigger] r@[i]) == p_dec(self@, N as nat)[i],
    {
        let arr = self.c.array::<1>();
        let r = PermutationArray { arr };
        proof {
            assert forall|i: int| 0 <= i < N
                implies (#[trigger] r@[i]) == p_dec(self@, N as nat)[i] by {
                assert(r@[i] == r.arr@[i].0);
            }
        }
        r
    }
}

/// A table of the transitions of every permutation coordinate under a
/// fixed list of permutations.
pub struct TransitionTable<const N: usize> {
    pub inner: PermutationTable<N, 1>,
}

impl<const N: usize> TransitionTable<N> {
    /// Well-formedness of the inner table.
    pub open spec fn wf(self) -> bool {
        self.inner.wf()
    }

    /// The remembered generator views.
    pub open spec fn gens(self) -> Seq<Seq<(u8, u8)>> {
        self.inner.gens@
    }

    /// Builds the table from a list of permutations; transitions are looked
    /// up later by index into this list.
    pub fn new(permutations: &Vec<PermutationArray<N>>) -> (r: Self)
        requires
            1 <= N <= 12,
            1 <= permutations@.len() <= 64,
            fact(N as nat) * permutations@.len() <= 0xffff_ffff,
            forall|i: int| 0 <= i < permutations@.len() ==> (#[trigger] permutations@[i]).wf(),
        ensures
            r.wf(),
            r.gens().len() == permutations@.len(),
            forall|i: int| 0 <= i < permutations@.len()
                ==> (#[trigger] r.gens()[i]) == permutations@[i].arr@,
    {
        let mut gens: Vec<Array<N, 1>> = Vec::new();
        let mut i: usize = 0;
        while i < permutations.len()
            invariant
                i <= permutations@.len(),
                forall|j: int| 0 <= j < permutations@.len()
                    ==> (#[trigger] permutations@[j]).wf(),
                gens@.len() == i,
                forall|j: int| 0 <= j < i ==> (#[trigger] gens@[j])@ == permutations@[j].arr@
                    && gens@[j].wf(),
            decreases permutations@.len() - i,
        {
            gens.push(permutations[i].arr.duplicate());
            i = i + 1;
        }
        let inner = PermutationTable::new(&gens);
        let r = TransitionTable { inner };
        proof {
            assert forall|i: int| 0 <= i < permutations@.len()
                implies (#[trigger] r.gens()[i]) == permutations@[i].arr@ by {
                assert(r.gens()[i] == gens@[i]@);
            }
        }
        r
    }

    /// The coordinate that `position` becomes under the permutation with
    /// index `permutation_index` in the list the table was built from.
    pub fn transition(&self, position: Coordinate<N>, permutation_index: usize) -> (r: Coordinate<N>)
        requires
            self.wf(),
            position.wf(),
            1 <= N <= 12,
            permutation_index < self.gens().len(),
        ensures
            r@ == lehmer(compose(p_canon(position@, N as nat),
                self.gens()[permutation_index as int], 1)),
            r.wf(),
    {
        Coordinate { c: self.inner.lookup(position.c, permutation_index) }
    }
}

} // verus!
