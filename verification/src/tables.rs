use vstd::prelude::*;

verus! {

use crate::definitions::{
    Array, OrientationCoord, PermutationCoord, CombinationCoord, Coordinate,
    o_canon, p_canon, c_canon, o_val, lehmer, c_val, compose,
};
use crate::pruning;
use crate::transition;
use crate::util::{fact, pow, binom, lemma_fact_12, lemma_fact_monotone, lemma_pow_positive};

/// The views of a slice of generator arrays.
pub open spec fn gen_views<const N: usize, const M: u8>(gens: Seq<Array<N, M>>) -> Seq<Seq<(u8, u8)>> {
    gens.map_values(|a: Array<N, M>| a@)
}

/// A transition table over the orientation coordinates of `N` elements
/// modulo `M`, for a remembered set of generators.
pub struct OrientationTable<const N: usize, const M: u8> {
    pub table: transition::Table,
    pub gens: Ghost<Seq<Seq<(u8, u8)>>>,
}

impl<const N: usize, const M: u8> OrientationTable<N, M> {
    /// Well-formedness: the table transitions every coordinate by
    /// decode-compose-encode over the remembered generators.
    pub open spec fn wf(self) -> bool {
        &&& self.table.wf()
        &&& self.table.size_spec() == pow(M as nat, (N - 1) as nat)
        &&& self.table.gens_spec() == self.gens@.len()
        &&& forall|c: int, g: int| 0 <= c < self.table.size_spec() && 0 <= g < self.gens@.len()
            ==> #[trigger] self.table.entry(c, g)
                == o_val(compose(o_canon(c, N as nat, M), self.gens@[g], M), M)
    }

    /// Builds the table from a set of generators.
    pub fn new(generators: &Vec<Array<N, M>>) -> (r: Self)
        requires
            1 <= N <= 12,
            M >= 1,
            pow(M as nat, (N - 1) as nat) <= 0x1_0000,
            generators@.len() >= 1,
            generators@.len() <= 64,
            forall|i: int| 0 <= i < generators@.len() ==> (#[trigger] generators@[i]).wf(),
        ensures
            r.wf(),
            r.gens@ == gen_views(generators@),
    {
        let size = OrientationCoord::<N, M>::bound();
        let all = OrientationCoord::<N, M>::all();
        let gn = generators.len();
        let mut entries: Vec<u32> = Vec::new();
        let mut c: usize = 0;
        while c < all.len()
            invariant
                c <= all@.len(),
                1 <= N <= 12,
                M >= 1,
                all@.len() == size == pow(M as nat, (N - 1) as nat) <= 0x1_0000,
                1 <= gn == generators@.len() <= 64,
                forall|i: int| 0 <= i < generators@.len() ==> (#[trigger] generators@[i]).wf(),
                forall|l: int| 0 <= l < all@.len()
                    ==> (#[trigger] all@[l])@ == l && all@[l].wf(),
                entries@.len() == c * gn,
                forall|i: int| 0 <= i < entries@.len() ==> (#[trigger] entries@[i]) < size,
                forall|x: int, g: int| 0 <= x < c && 0 <= g < gn
                    ==> #[trigger] entries@[x * gn + g]
                        == o_val(compose(o_canon(x, N as nat, M), generators@[g]@, M), M),
            decreases all@.len() - c,
        {
            let arr = all[c].array();
            let mut g: usize = 0;
            while g < gn
                invariant
                    g <= gn,
                    c < all@.len(),
                    1 <= N <= 12,
                    M >= 1,
                    all@.len() == size == pow(M as nat, (N - 1) as nat) <= 0x1_0000,
                    1 <= gn == generators@.len() <= 64,
                    forall|i: int| 0 <= i < generators@.len() ==> (#[trigger] generators@[i]).wf(),
                    forall|l: int| 0 <= l < all@.len()
                        ==> (#[trigger] all@[l])@ == l && all@[l].wf(),
                    arr.wf(),
                    arr@ == o_canon(c as int, N as nat, M),
                    entries@.len() == c * gn + g,
                    forall|i: int| 0 <= i < entries@.len() ==> (#[trigger] entries@[i]) < size,
                    forall|x: int, g2: int| 0 <= x < c && 0 <= g2 < gn
                        ==> #[trigger] entries@[x * gn + g2]
                            == o_val(compose(o_canon(x, N as nat, M), generators@[g2]@, M), M),
                    forall|g2: int| 0 <= g2 < g
                        ==> #[trigger] entries@[c * gn + g2]
                            == o_val(compose(o_canon(c as int, N as nat, M), generators@[g2]@, M), M),
                decreases gn - g,
            {

                let next = arr.permute(&generators[g]).o_coordinate();
                let ghost pre = entries@;
                entries.push(next.index() as u32);
                proof {
                    assert forall|x: int, g2: int| 0 <= x < c && 0 <= g2 < gn
                        implies #[trigger] entries@[x * gn + g2]
                            == o_val(compose(o_canon(x, N as nat, M), generators@[g2]@, M), M) by {
                        assert((x + 1) * gn <= c * gn) by (nonlinear_arith)
                            requires x + 1 <= c, gn >= 0;
                        assert(x * gn + g2 < (x + 1) * gn) by (nonlinear_arith)
                            requires 0 <= g2 < gn;
                        assert(entries@[x * gn + g2] == pre[x * gn + g2]);
                    }
                }
                g = g + 1;
            }
            proof {
                assert(c * gn + gn == (c + 1) * gn) by (nonlinear_arith);
            }
            c = c + 1;
        }
        proof {
            lemma_pow_positive(M as nat, (N - 1) as nat);
            assert(size * gn <= 0x1_0000 * 64int) by (nonlinear_arith)
                requires size <= 0x1_0000, 0 <= gn <= 64;
        }
        let t = transition::Table::new(size, gn, entries);
        OrientationTable { table: t, gens: Ghost(gen_views(generators@)) }
    }

    /// The coordinate that `position` becomes under the generator with the
    /// given index.
    pub fn lookup(
        &self,
        position: OrientationCoord<N, M>,
        permutation_index: usize,
    ) -> (r: OrientationCoord<N, M>)
        requires
            self.wf(),
            position.wf(),
            permutation_index < self.gens@.len(),
            pow(M as nat, (N - 1) as nat) <= 0x1_0000,
        ensures
            r@ == o_val(
                compose(o_canon(position@, N as nat, M), self.gens@[permutation_index as int], M),
                M,
            ),
            r.wf(),
    {
        let v = self.table.lookup(position.index(), permutation_index);
        OrientationCoord::from_index(v)
    }
}

/// A transition table over the permutation coordinates of `N` elements,
/// for a remembered set of generators.
pub struct PermutationTable<const N: usize, const M: u8> {
    pub table: transition::Table,
    pub gens: Ghost<Seq<Seq<(u8, u8)>>>,
}

impl<const N: usize, const M: u8> PermutationTable<N, M> {
    /// Well-formedness: the table transitions every coordinate by
    /// decode-compose-encode over the remembered generators.
    pub open spec fn wf(self) -> bool {
        &&& self.table.wf()
        &&& self.table.size_spec() == fact(N as nat)
        &&& self.table.gens_spec() == self.gens@.len()
        &&& forall|c: int, g: int| 0 <= c < self.table.size_spec() && 0 <= g < self.gens@.len()
            ==> #[trigger] self.table.entry(c, g)
                == lehmer(compose(p_canon(c, N as nat), self.gens@[g], M))
    }

    /// Builds the table from a set of generators.
    pub fn new(generators: &Vec<Array<N, M>>) -> (r: Self)
        requires
            1 <= N <= 12,
            M >= 1,
            generators@.len() >= 1,
            generators@.len() <= 64,
            fact(N as nat) * generators@.len() <= 0xffff_ffff,
            forall|i: int| 0 <= i < generators@.len() ==> (#[trigger] generators@[i]).wf(),
        ensures
            r.wf(),
            r.gens@ == gen_views(generators@),
    {
        proof {
            lemma_fact_12();
            lemma_fact_monotone(N as nat, 12);
        }
        let size = PermutationCoord::<N>::bound();
        let all = PermutationCoord::<N>::all();
        let gn = generators.len();
        let mut entries: Vec<u32> = Vec::new();
        let mut c: usize = 0;
        while c < all.len()
            invariant
                c <= all@.len(),
                1 <= N <= 12,
                M >= 1,
                all@.len() == size == fact(N as nat) <= 479001600,
                size * gn <= 0xffff_ffff,
                1 <= gn == generators@.len() <= 64,
                forall|i: int| 0 <= i < generators@.len() ==> (#[trigger] generators@[i]).wf(),
                forall|l: int| 0 <= l < all@.len()
                    ==> (#[trigger] all@[l])@ == l && all@[l].wf(),
                entries@.len() == c * gn,
                forall|i: int| 0 <= i < entries@.len() ==> (#[trigger] entries@[i]) < size,
                forall|x: int, g: int| 0 <= x < c && 0 <= g < gn
                    ==> #[trigger] entries@[x * gn + g]
                        == lehmer(compose(p_canon(x, N as nat), generators@[g]@, M)),
            decreases all@.len() - c,
        {
            let arr = all[c].array::<M>();
            let mut g: usize = 0;
            while g < gn
                invariant
                    g <= gn,
                    c < all@.len(),
                    1 <= N <= 12,
                    M >= 1,
                    all@.len() == size == fact(N as nat) <= 479001600,
                    size * gn <= 0xffff_ffff,
                    1 <= gn == generators@.len() <= 64,
                    forall|i: int| 0 <= i < generators@.len() ==> (#[trigger] generators@[i]).wf(),
                    forall|l: int| 0 <= l < all@.len()
                        ==> (#[trigger] all@[l])@ == l && all@[l].wf(),
                    arr.wf(),
                    forall|i: int| 0 <= i < N ==> (#[trigger] arr@[i]) == p_canon(c as int, N as nat)[i],
                    entries@.len() == c * gn + g,
                    forall|i: int| 0 <= i < entries@.len() ==> (#[trigger] entries@[i]) < size,
                    forall|x: int, g2: int| 0 <= x < c && 0 <= g2 < gn
                        ==> #[trigger] entries@[x * gn + g2]
                            == lehmer(compose(p_canon(x, N as nat), generators@[g2]@, M)),
                    forall|g2: int| 0 <= g2 < g
                        ==> #[trigger] entries@[c * gn + g2]
                            == lehmer(compose(p_canon(c as int, N as nat), generators@[g2]@, M)),
                decreases gn - g,
            {
                proof {
                    assert(arr@ =~= p_canon(c as int, N as nat));
                }
                let next = arr.permute(&generators[g]).p_coordinate();
                let ghost pre = entries@;
                entries.push(next.index() as u32);
                proof {
                    assert forall|x: int, g2: int| 0 <= x < c && 0 <= g2 < gn
                        implies #[trigger] entries@[x * gn + g2]
                            == lehmer(compose(p_canon(x, N as nat), generators@[g2]@, M)) by {
                        assert((x + 1) * gn <= c * gn) by (nonlinear_arith)
                            requires x + 1 <= c, gn >= 0;
                        assert(x * gn + g2 < (x + 1) * gn) by (nonlinear_arith)
                            requires 0 <= g2 < gn;
                        assert(entries@[x * gn + g2] == pre[x * gn + g2]);
                    }
                }
                g = g + 1;
            }
            proof {
                assert(c * gn + gn == (c + 1) * gn) by (nonlinear_arith);
            }
            c = c + 1;
        }
        proof {
            crate::definitions::lemma_fact_positive(N as nat);
        }
        let t = transition::Table::new(size, gn, entries);
        PermutationTable { table: t, gens: Ghost(gen_views(generators@)) }
    }

    /// The coordinate that `position` becomes under the generator with the
    /// given index.
    pub fn lookup(
        &self,
        position: PermutationCoord<N>,
        permutation_index: usize,
    ) -> (r: PermutationCoord<N>)
        requires
            self.wf(),
            position.wf(),
            1 <= N <= 12,
            permutation_index < self.gens@.len(),
        ensures
            r@ == lehmer(
                compose(p_canon(position@, N as nat), self.gens@[permutation_index as int], M),
            ),
            r.wf(),
    {
        proof {
            lemma_fact_12();
            lemma_fact_monotone(N as nat, 12);
        }
        let v = self.table.lookup(position.index(), permutation_index);
        PermutationCoord::from_index(v)
    }
}

} // verus!

verus! {

use crate::pruning::Depth;

/// A transition table over the combination coordinates of the `K` highest
/// of `N` elements, for a remembered set of generators.
pub struct CombinationTable<const N: usize, const K: usize> {
    pub table: transition::Table,
    pub gens: Ghost<Seq<Seq<(u8, u8)>>>,
}

impl<const N: usize, const K: usize> CombinationTable<N, K> {
    /// Well-formedness: the table transitions every coordinate by
    /// decode-compose-encode over the remembered generators.
    pub open spec fn wf(self) -> bool {
        &&& self.table.wf()
        &&& self.table.size_spec() == binom(N as nat, K as nat)
        &&& self.table.gens_spec() == self.gens@.len()
        &&& forall|c: int, g: int| 0 <= c < self.table.size_spec() && 0 <= g < self.gens@.len()
            ==> #[trigger] self.table.entry(c, g)
                == c_val(compose(c_canon(c, N as nat, K as nat), self.gens@[g], 1), N as nat, K as nat)
    }

    /// Builds the table from a set of generators.
    pub fn new(generators: &Vec<Array<N, 1>>) -> (r: Self)
        requires
            1 <= N <= 12,
            1 <= K <= N,
            binom(N as nat, K as nat) <= 0x1_0000,
            generators@.len() >= 1,
            generators@.len() <= 64,
            forall|i: int| 0 <= i < generators@.len() ==> (#[trigger] generators@[i]).wf(),
        ensures
            r.wf(),
            r.gens@ == gen_views(generators@),
    {
        let size = CombinationCoord::<N, K>::bound();
        let all = CombinationCoord::<N, K>::all();
        let gn = generators.len();
        let mut entries: Vec<u32> = Vec::new();
        let mut c: usize = 0;
        while c < all.len()
            invariant
                c <= all@.len(),
                1 <= N <= 12,
                1 <= K <= N,
                all@.len() == size == binom(N as nat, K as nat) <= 0x1_0000,
                1 <= gn == generators@.len() <= 64,
                forall|i: int| 0 <= i < generators@.len() ==> (#[trigger] generators@[i]).wf(),
                forall|l: int| 0 <= l < all@.len()
                    ==> (#[trigger] all@[l])@ == l && all@[l].wf(),
                entries@.len() == c * gn,
                forall|i: int| 0 <= i < entries@.len() ==> (#[trigger] entries@[i]) < size,
                forall|x: int, g: int| 0 <= x < c && 0 <= g < gn
                    ==> #[trigger] entries@[x * gn + g]
                        == c_val(compose(c_canon(x, N as nat, K as nat), generators@[g]@, 1),
                            N as nat, K as nat),
            decreases all@.len() - c,
        {
            let arr = all[c].array::<1>();
            let mut g: usize = 0;
            while g < gn
                invariant
                    g <= gn,
                    c < all@.len(),
                    1 <= N <= 12,
                    1 <= K <= N,
                    all@.len() == size == binom(N as nat, K as nat) <= 0x1_0000,
                    1 <= gn == generators@.len() <= 64,
                    forall|i: int| 0 <= i < generators@.len() ==> (#[trigger] generators@[i]).wf(),
                    forall|l: int| 0 <= l < all@.len()
                        ==> (#[trigger] all@[l])@ == l && all@[l].wf(),
                    arr.wf(),
                    forall|i: int| 0 <= i < N
                        ==> (#[trigger] arr@[i]) == c_canon(c as int, N as nat, K as nat)[i],
                    entries@.len() == c * gn + g,
                    forall|i: int| 0 <= i < entries@.len() ==> (#[trigger] entries@[i]) < size,
                    forall|x: int, g2: int| 0 <= x < c && 0 <= g2 < gn
                        ==> #[trigger] entries@[x * gn + g2]
                            == c_val(compose(c_canon(x, N as nat, K as nat), generators@[g2]@, 1),
                                N as nat, K as nat),
                    forall|g2: int| 0 <= g2 < g
                        ==> #[trigger] entries@[c * gn + g2]
                            == c_val(compose(c_canon(c as int, N as nat, K as nat), generators@[g2]@, 1),
                                N as nat, K as nat),
                decreases gn - g,
            {
                proof {
                    assert(arr@ =~= c_canon(c as int, N as nat, K as nat));
                }
                let next = arr.permute(&generators[g]).c_coordinate::<K>();
                let ghost pre = entries@;
                entries.push(next.index() as u32);
                proof {
                    assert forall|x: int, g2: int| 0 <= x < c && 0 <= g2 < gn
                        implies #[trigger] entries@[x * gn + g2]
                            == c_val(compose(c_canon(x, N as nat, K as nat), generators@[g2]@, 1),
                                N as nat, K as nat) by {
                        assert((x + 1) * gn <= c * gn) by (nonlinear_arith)
                            requires x + 1 <= c, gn >= 0;
                        assert(x * gn + g2 < (x + 1) * gn) by (nonlinear_arith)
                            requires 0 <= g2 < gn;
                        assert(entries@[x * gn + g2] == pre[x * gn + g2]);
                    }
                }
                g = g + 1;
            }
            proof {
                assert(c * gn + gn == (c + 1) * gn) by (nonlinear_arith);
            }
            c = c + 1;
        }
        proof {
            crate::definitions::lemma_binom_positive(N as nat, K as nat);
            assert(size * gn <= 0x1_0000 * 64int) by (nonlinear_arith)
                requires size <= 0x1_0000, 0 <= gn <= 64;
        }
        let t = transition::Table::new(size, gn, entries);
        CombinationTable { table: t, gens: Ghost(gen_views(generators@)) }
    }

    /// The coordinate that `position` becomes under the generator with the
    /// given index.
    pub fn lookup(
        &self,
        coord: CombinationCoord<N, K>,
        generator_index: usize,
    ) -> (r: CombinationCoord<N, K>)
        requires
            self.wf(),
            coord.wf(),
            generator_index < self.gens@.len(),
            binom(N as nat, K as nat) <= 0x1_0000,
        ensures
            r@ == c_val(
                compose(c_canon(coord@, N as nat, K as nat), self.gens@[generator_index as int], 1),
                N as nat, K as nat),
            r.wf(),
    {
        let v = self.table.lookup(coord.index(), generator_index);
        CombinationCoord::from_index(v)
    }
}

/// The paired orientation and permutation transition tables of one
/// cubie-array space.
pub struct FullTable<const N: usize, const M: u8> {
    pub orientation: OrientationTable<N, M>,
    pub permutation: PermutationTable<N, M>,
}

impl<const N: usize, const M: u8> FullTable<N, M> {
    /// Well-formedness: both sub-tables over one generator set.
    pub open spec fn wf(self) -> bool {
        self.orientation.wf() && self.permutation.wf()
            && self.orientation.gens@ == self.permutation.gens@
    }

    /// Builds both tables from one set of generators.
    pub fn new(permutations: &Vec<Array<N, M>>) -> (r: Self)
        requires
            1 <= N <= 12,
            M >= 1,
            pow(M as nat, (N - 1) as nat) <= 0x1_0000,
            fact(N as nat) * permutations@.len() <= 0xffff_ffff,
            permutations@.len() >= 1,
            permutations@.len() <= 64,
            forall|i: int| 0 <= i < permutations@.len() ==> (#[trigger] permutations@[i]).wf(),
        ensures
            r.wf(),
            r.orientation.gens@ == gen_views(permutations@),
    {
        FullTable {
            orientation: OrientationTable::new(permutations),
            permutation: PermutationTable::new(permutations),
        }
    }

    /// The coordinate pair that `position` becomes under the generator with
    /// the given index.
    pub fn lookup(&self, position: Coordinate<N, M>, permutation_index: usize) -> (r: Coordinate<N, M>)
        requires
            self.wf(),
            position.wf(),
            1 <= N <= 12,
            permutation_index < self.orientation.gens@.len(),
            pow(M as nat, (N - 1) as nat) <= 0x1_0000,
        ensures
            r.0@ == o_val(
                compose(o_canon(position.0@, N as nat, M),
                    self.orientation.gens@[permutation_index as int], M), M),
            r.1@ == lehmer(
                compose(p_canon(position.1@, N as nat),
                    self.orientation.gens@[permutation_index as int], M)),
            r.wf(),
    {
        Coordinate(
            self.orientation.lookup(position.0, permutation_index),
            self.permutation.lookup(position.1, permutation_index),
        )
    }
}

/// A pruning table over one orientation coordinate space, flooded from the
/// zero coordinate.
pub struct OrientationPruning<const N: usize, const M: u8> {
    pub table: pruning::Table,
}

impl<const N: usize, const M: u8> OrientationPruning<N, M> {
    /// Well-formedness relative to the transition table the flood used.
    pub open spec fn wf(self, t: &OrientationTable<N, M>) -> bool {
        &&& self.table.wf()
        &&& self.table.len_spec() == pow(M as nat, (N - 1) as nat)
        &&& self.table.depth(0) == 0
        &&& forall|x: int, d: int|
            0 <= x < pow(M as nat, (N - 1) as nat) && 0 <= d <= 253
                && #[trigger] transition::reaches(t.table, 0, x, d)
            ==> self.table.depth(x) <= d
        &&& forall|x: int| 0 <= x < pow(M as nat, (N - 1) as nat) && #[trigger] self.table.depth(x) > 0
            ==> transition::reaches(t.table, 0, x, self.table.depth(x))
        &&& forall|x: int| 0 <= x < pow(M as nat, (N - 1) as nat)
                && #[trigger] self.table.depth(x) == 0 && x != 0
            ==> !transition::reaches(t.table, 0, x, 253)
    }

    /// Floods the space from the zero coordinate.
    pub fn new(table: &OrientationTable<N, M>) -> (r: Self)
        requires
            table.wf(),
            pow(M as nat, (N - 1) as nat) >= 1,
        ensures
            r.wf(table),
    {
        OrientationPruning { table: pruning::Table::new(&table.table, 0) }
    }

    /// The stored lower bound of a coordinate.
    pub fn lookup(&self, coord: OrientationCoord<N, M>) -> (r: Depth)
        requires
            coord.wf(),
            self.table.len_spec() == pow(M as nat, (N - 1) as nat),
        ensures
            r == self.table.depth(coord@),
    {
        self.table.lookup(coord.index())
    }
}

} // verus!

verus! {

/// The flat product index of an orientation-permutation coordinate pair.
pub open spec fn pair_index<const N: usize, const M: u8>(o: int, p: int) -> int {
    p * pow(M as nat, (N - 1) as nat) + o
}

/// The product transition: both coordinates of the pair with flat index
/// `c` stepped by generator `g` of the full table.
pub open spec fn pair_step<const N: usize, const M: u8>(ft: FullTable<N, M>, c: int, g: int) -> int {
    let pw = pow(M as nat, (N - 1) as nat) as int;
    let o = c % pw;
    let p = c / pw;
    pair_index::<N, M>(
        o_val(compose(o_canon(o, N as nat, M), ft.orientation.gens@[g], M), M),
        lehmer(compose(p_canon(p, N as nat), ft.orientation.gens@[g], M)),
    )
}

/// A pruning table over the product of one space's orientation and
/// permutation coordinates, flooded from the identity pair.
pub struct FullPruning<const N: usize, const M: u8> {
    pub table: pruning::Table,
    pub trans: Ghost<transition::Table>,
}

impl<const N: usize, const M: u8> FullPruning<N, M> {
    /// Well-formedness relative to the full table the flood used.
    pub open spec fn wf(self, t: &FullTable<N, M>) -> bool {
        &&& self.table.wf()
        &&& self.table.len_spec() == pow(M as nat, (N - 1) as nat) * fact(N as nat)
        &&& self.table.depth(0) == 0
        &&& self.trans@.wf()
        &&& self.trans@.size_spec() == pow(M as nat, (N - 1) as nat) * fact(N as nat)
        &&& self.trans@.gens_spec() == t.orientation.gens@.len()
        &&& forall|c: int, g: int|
            0 <= c < self.trans@.size_spec() && 0 <= g < self.trans@.gens_spec()
            ==> #[trigger] self.trans@.entry(c, g) == pair_step(*t, c, g)
        &&& forall|x: int, d: int|
            0 <= x < self.trans@.size_spec() && 0 <= d <= 253
                && #[trigger] transition::reaches(self.trans@, 0, x, d)
            ==> self.table.depth(x) <= d
        &&& forall|x: int| 0 <= x < self.trans@.size_spec() && #[trigger] self.table.depth(x) > 0
            ==> transition::reaches(self.trans@, 0, x, self.table.depth(x))
        &&& forall|x: int|
            0 <= x < self.trans@.size_spec() && #[trigger] self.table.depth(x) == 0 && x != 0
            ==> !transition::reaches(self.trans@, 0, x, 253)
    }

    /// Floods the product space from the identity pair.
    pub fn new(table: &FullTable<N, M>) -> (r: Self)
        requires
            table.wf(),
            1 <= N <= 12,
            M >= 1,
            pow(M as nat, (N - 1) as nat) <= 0x1_0000,
            pow(M as nat, (N - 1) as nat) * fact(N as nat) * table.orientation.gens@.len()
                <= 0xffff_ffff,
        ensures
            r.wf(table),
    {
        let powv = OrientationCoord::<N, M>::bound();
        proof {
            lemma_fact_12();
            lemma_fact_monotone(N as nat, 12);
            lemma_pow_positive(M as nat, (N - 1) as nat);
            crate::definitions::lemma_fact_positive(N as nat);
            assert(powv * fact(N as nat) <= 0x1_0000 * 479001600int) by (nonlinear_arith)
                requires powv <= 0x1_0000, fact(N as nat) <= 479001600;
            assert(powv * fact(N as nat) >= 1) by (nonlinear_arith)
                requires powv >= 1, fact(N as nat) >= 1;
            assert(powv * fact(N as nat)
                <= powv * fact(N as nat) * table.orientation.gens@.len())
                by (nonlinear_arith)
                requires powv * fact(N as nat) >= 0, table.orientation.gens@.len() >= 1;
        }
        let size = powv * crate::util::factorial(N);
        let gn = table.orientation.table.gens();
        proof {
            assert(table.orientation.table.gens_spec()
                <= table.orientation.table.size_spec() * table.orientation.table.gens_spec())
                by (nonlinear_arith)
                requires
                    table.orientation.table.size_spec() >= 1,
                    table.orientation.table.gens_spec() >= 0;
        }
        let mut entries: Vec<u32> = Vec::new();
        let mut c: usize = 0;
        while c < size
            invariant
                c <= size,
                1 <= N <= 12,
                M >= 1,
                table.wf(),
                powv == pow(M as nat, (N - 1) as nat) <= 0x1_0000,
                powv >= 1,
                size == powv * fact(N as nat),
                size * gn <= 0xffff_ffff,
                size >= 1,
                1 <= gn == table.orientation.gens@.len() <= 0xffff_ffff,
                entries@.len() == c * gn,
                forall|i: int| 0 <= i < entries@.len() ==> (#[trigger] entries@[i]) < size,
                forall|x: int, g: int| 0 <= x < c && 0 <= g < gn
                    ==> #[trigger] entries@[x * gn + g] == pair_step(*table, x, g),
            decreases size - c,
        {
            let o = c % powv;
            let p = c / powv;
            proof {
                vstd::arithmetic::div_mod::lemma_mod_bound(c as int, powv as int);
                vstd::arithmetic::div_mod::lemma_fundamental_div_mod(c as int, powv as int);
                assert(p < fact(N as nat)) by (nonlinear_arith)
                    requires
                        c < powv * fact(N as nat),
                        c == powv * (c as int / powv as int) + c as int % powv as int,
                        p == c as int / powv as int,
                        0 <= c as int % powv as int,
                        powv >= 1;
                vstd::arithmetic::div_mod::lemma_div_pos_is_pos(c as int, powv as int);
            }
            let oc = OrientationCoord::<N, M>::from_index(o);
            let pc = PermutationCoord::<N>::from_index(p);
            let mut g: usize = 0;
            while g < gn
                invariant
                    g <= gn,
                    c < size,
                    1 <= N <= 12,
                    M >= 1,
                    table.wf(),
                    powv == pow(M as nat, (N - 1) as nat) <= 0x1_0000,
                    powv >= 1,
                    size == powv * fact(N as nat),
                    size * gn <= 0xffff_ffff,
                    1 <= gn == table.orientation.gens@.len() <= 0xffff_ffff,
                    oc.wf(),
                    pc.wf(),
                    oc@ == c as int % powv as int,
                    pc@ == c as int / powv as int,
                    entries@.len() == c * gn + g,
                    forall|i: int| 0 <= i < entries@.len() ==> (#[trigger] entries@[i]) < size,
                    forall|x: int, g2: int| 0 <= x < c && 0 <= g2 < gn
                        ==> #[trigger] entries@[x * gn + g2] == pair_step(*table, x, g2),
                    forall|g2: int| 0 <= g2 < g
                        ==> #[trigger] entries@[c * gn + g2] == pair_step(*table, c as int, g2),
                decreases gn - g,
            {
                let no = table.orientation.lookup(oc, g);
                let np = table.permutation.lookup(pc, g);
                proof {
                    assert((np@ + 1) * powv <= fact(N as nat) * powv) by (nonlinear_arith)
                        requires np@ + 1 <= fact(N as nat), powv >= 0;
                    assert((np@ + 1) * powv == np@ * powv + powv) by (nonlinear_arith);
                    assert(np@ * powv >= 0) by (nonlinear_arith)
                        requires np@ >= 0, powv >= 0;
                    assert(fact(N as nat) * powv == powv * fact(N as nat)) by (nonlinear_arith);
                }
                let e = np.index() * powv + no.index();
                proof {
                    assert(table.orientation.gens@ == table.permutation.gens@);
                    let gseq = table.orientation.gens@[g as int];
                    assert(no@ == o_val(compose(
                        o_canon(c as int % powv as int, N as nat, M), gseq, M), M));
                    assert(np@ == lehmer(compose(
                        p_canon(c as int / powv as int, N as nat), gseq, M)));
                    assert(pair_step(*table, c as int, g as int)
                        == lehmer(compose(p_canon(c as int / powv as int, N as nat), gseq, M))
                            * (powv as int)
                        + o_val(compose(o_canon(c as int % powv as int, N as nat, M), gseq, M), M));
                    assert(pair_step(*table, c as int, g as int) == np@ * (powv as int) + no@);
                    assert(e < size);
                    assert(size <= size * gn) by (nonlinear_arith)
                        requires size >= 0, gn >= 1;
                    assert(e as u32 == e);
                    assert(e as u32 == pair_step(*table, c as int, g as int));
                }
                let ghost pre = entries@;
                entries.push(e as u32);
                proof {
                    assert(entries@[c * gn + g] == e as u32);
                    assert forall|x: int, g2: int| 0 <= x < c && 0 <= g2 < gn
                        implies #[trigger] entries@[x * gn + g2] == pair_step(*table, x, g2) by {
                        assert((x + 1) * gn <= c * gn) by (nonlinear_arith)
                            requires x + 1 <= c, gn >= 0;
                        assert(x * gn + g2 < (x + 1) * gn) by (nonlinear_arith)
                            requires 0 <= g2 < gn;
                        assert(entries@[x * gn + g2] == pre[x * gn + g2]);
                    }
                    assert forall|g2: int| 0 <= g2 <= g
                        implies #[trigger] entries@[c * gn + g2] == pair_step(*table, c as int, g2) by {
                        if g2 < g {
                            assert(entries@[c * gn + g2] == pre[c * gn + g2]);
                        } else {
                            assert(entries@[c * gn + g] == e as u32);
                        }
                    }
                }
                g = g + 1;
            }
            proof {
                assert(c * gn + gn == (c + 1) * gn) by (nonlinear_arith);
            }
            c = c + 1;
        }
        let pt = transition::Table::new(size, gn, entries);
        let r = FullPruning { table: pruning::Table::new(&pt, 0), trans: Ghost(pt) };
        proof {
            vstd::arithmetic::div_mod::lemma_mod_self_0(powv as int);
            vstd::arithmetic::div_mod::lemma_div_by_self(powv as int);
        }
        r
    }

    /// The stored lower bound of a coordinate pair.
    pub fn lookup(&self, position: Coordinate<N, M>) -> (r: Depth)
        requires
            position.wf(),
            1 <= N <= 12,
            M >= 1,
            self.table.len_spec() == pow(M as nat, (N - 1) as nat) * fact(N as nat),
            pow(M as nat, (N - 1) as nat) * fact(N as nat) <= 0xffff_ffff,
        ensures
            r == self.table.depth(pair_index::<N, M>(position.0@, position.1@)),
    {
        proof {
            lemma_fact_12();
            lemma_fact_monotone(N as nat, 12);
            lemma_pow_positive(M as nat, (N - 1) as nat);
            let pw = pow(M as nat, (N - 1) as nat) as int;
            assert((position.1@ + 1) * pw <= fact(N as nat) * pw) by (nonlinear_arith)
                requires position.1@ + 1 <= fact(N as nat), pw >= 0;
            assert((position.1@ + 1) * pw == position.1@ * pw + pw) by (nonlinear_arith);
            assert(position.1@ * pw >= 0) by (nonlinear_arith)
                requires position.1@ >= 0, pw >= 0;
            assert(fact(N as nat) * pw == pw * fact(N as nat)) by (nonlinear_arith);
        }
        let idx = position.1.index() * (if N == 1 { 1 } else { crate::util::power(M, N - 1) })
            + position.0.index();
        self.table.lookup(idx)
    }
}

} // verus!
