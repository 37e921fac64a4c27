use vstd::prelude::*;

verus! {

/// Why a candidate cubie array was rejected.
#[derive(Clone, Copy, Debug, Eq, PartialEq, Structural)]
pub enum CreationError {
    InvalidOrientation,
    InvalidPermutation,
}

/// The first components of `s` form a permutation of `0 .. n`.
pub open spec fn is_perm(s: Seq<(u8, u8)>, n: nat) -> bool {
    &&& s.len() == n
    &&& forall|i: int| 0 <= i < s.len() ==> (#[trigger] s[i]).0 < n
    &&& forall|i: int, j: int| 0 <= i < j < s.len() ==> s[i].0 != s[j].0
}

/// Every second component of `s` lies below the orientation modulus `m`.
pub open spec fn oris_below(s: Seq<(u8, u8)>, m: u8) -> bool {
    forall|i: int| 0 <= i < s.len() ==> (#[trigger] s[i]).1 < m
}

/// Position `i` of `s` carries an orientation at or above the modulus.
pub open spec fn ori_bad_at(s: Seq<(u8, u8)>, m: u8, i: int) -> bool {
    s[i].1 >= m
}

/// Position `i` of `s` breaks the permutation: an element out of range, or
/// one repeated at a later position.
pub open spec fn perm_bad_at(s: Seq<(u8, u8)>, n: nat, i: int) -> bool {
    s[i].0 >= n || exists|j: int| i < j < s.len() && s[j].0 == s[i].0
}

/// Position `i` of `s` breaks validity in either way.
pub open spec fn bad_at(s: Seq<(u8, u8)>, n: nat, m: u8, i: int) -> bool {
    ori_bad_at(s, m, i) || perm_bad_at(s, n, i)
}

/// A well-formed cubie array over `n` elements with orientations modulo `m`.
pub open spec fn is_valid(s: Seq<(u8, u8)>, n: nat, m: u8) -> bool {
    is_perm(s, n) && oris_below(s, m)
}

/// The identity cubie array over `n` elements.
pub open spec fn id_seq(n: nat) -> Seq<(u8, u8)> {
    Seq::new(n, |i: int| (i as u8, 0u8))
}

/// Group composition of cubie arrays: position `i` of the result receives
/// the element that `a` holds at the position `b` routes `i` to, and the
/// orientations add modulo `m`.
pub open spec fn compose(a: Seq<(u8, u8)>, b: Seq<(u8, u8)>, m: u8) -> Seq<(u8, u8)> {
    Seq::new(a.len(), |i: int| (
        a[b[i].0 as int].0,
        ((b[i].1 + a[b[i].0 as int].1) as int % (m as int)) as u8,
    ))
}

/// An ordered sequence of `N` pairs (element, orientation) whose elements
/// form a permutation of `0 .. N` and whose orientations lie below `M`.
#[derive(Clone, Debug, Eq, PartialEq)]
pub struct Array<const N: usize, const M: u8> {
    pairs: Vec<(u8, u8)>,
}

impl<const N: usize, const M: u8> View for Array<N, M> {
    type V = Seq<(u8, u8)>;

    closed spec fn view(&self) -> Seq<(u8, u8)> {
        self.pairs@
    }
}

impl<const N: usize, const M: u8> Array<N, M> {
    /// Well-formedness: what every `Array` value this module hands out satisfies.
    pub open spec fn wf(self) -> bool {
        is_valid(self@, N as nat, M)
    }

    /// The identity cubie array.
    pub fn identity() -> (r: Self)
        requires
            N <= 256,
            M >= 1,
        ensures
            r@ == id_seq(N as nat),
            r.wf(),
    {
        let mut pairs: Vec<(u8, u8)> = Vec::new();
        let mut i: usize = 0;
        while i < N
            invariant
                i <= N <= 256,
                pairs@.len() == i,
                forall|j: int| 0 <= j < i ==> pairs@[j] == (j as u8, 0u8),
            decreases N - i,
        {
            pairs.push((i as u8, 0));
            i = i + 1;
        }
        let r = Array { pairs };
        proof {
            assert(r@ =~= id_seq(N as nat));
        }
        r
    }

    /// Checks whether `candidate` is a valid (permutation, orientation)
    /// array, scanning position by position: at each position the
    /// orientation is examined first, then the element. The reported tag
    /// belongs to the first offending position.
    fn check(candidate: &Vec<(u8, u8)>) -> (r: Result<(), CreationError>)
        requires
            candidate@.len() == N,
        ensures
            r is Ok <==> is_valid(candidate@, N as nat, M),
            r is Err ==> exists|i: int|
                0 <= i < N && #[trigger] bad_at(candidate@, N as nat, M, i)
                && (forall|j: int| 0 <= j < i ==> !(#[trigger] bad_at(candidate@, N as nat, M, j)))
                && r == Err::<(), CreationError>(
                    if ori_bad_at(candidate@, M, i) {
                        CreationError::InvalidOrientation
                    } else {
                        CreationError::InvalidPermutation
                    },
                ),
    {
        let mut ix: usize = 0;
        while ix < N
            invariant
                ix <= N,
                candidate@.len() == N,
                forall|i: int| 0 <= i < ix ==> !(#[trigger] bad_at(candidate@, N as nat, M, i)),
            decreases N - ix,
        {
            if candidate[ix].1 >= M {
                proof {
                    assert(bad_at(candidate@, N as nat, M, ix as int));
                }
                return Err(CreationError::InvalidOrientation);
            }
            if candidate[ix].0 as usize >= N {
                proof {
                    assert(bad_at(candidate@, N as nat, M, ix as int));
                }
                return Err(CreationError::InvalidPermutation);
            }
            let mut jx: usize = ix + 1;
            while jx < N
                invariant
                    ix < jx <= N,
                    candidate@.len() == N,
                    forall|i: int| 0 <= i < ix ==> !(#[trigger] bad_at(candidate@, N as nat, M, i)),
                    candidate@[ix as int].1 < M,
                    candidate@[ix as int].0 < N,
                    forall|j: int| ix < j < jx
                        ==> candidate@[ix as int].0 != (#[trigger] candidate@[j]).0,
                decreases N - jx,
            {
                if candidate[ix].0 == candidate[jx].0 {
                    proof {
                        assert(perm_bad_at(candidate@, N as nat, ix as int));
                        assert(bad_at(candidate@, N as nat, M, ix as int));
                    }
                    return Err(CreationError::InvalidPermutation);
                }
                jx = jx + 1;
            }
            proof {
                assert(!bad_at(candidate@, N as nat, M, ix as int));
            }
            ix = ix + 1;
        }
        proof {
            assert forall|i: int, j: int| 0 <= i < j < N
                implies candidate@[i].0 != candidate@[j].0 by {
                assert(!bad_at(candidate@, N as nat, M, i));
                assert(!perm_bad_at(candidate@, N as nat, i));
            }
            assert forall|i: int| 0 <= i < N implies (#[trigger] candidate@[i]).0 < N by {
                assert(!bad_at(candidate@, N as nat, M, i));
                assert(!perm_bad_at(candidate@, N as nat, i));
            }
            assert forall|i: int| 0 <= i < N implies (#[trigger] candidate@[i]).1 < M by {
                assert(!bad_at(candidate@, N as nat, M, i));
                assert(!ori_bad_at(candidate@, M, i));
            }
        }
        Ok(())
    }

    /// Builds a cubie array after validating it; the tag names what the
    /// first offending position was caught at, orientation before element.
    pub fn create(candidate: Vec<(u8, u8)>) -> (r: Result<Self, CreationError>)
        requires
            candidate@.len() == N,
        ensures
            r is Ok <==> is_valid(candidate@, N as nat, M),
            r is Ok ==> r->Ok_0@ == candidate@ && r->Ok_0.wf(),
            r is Err ==> exists|i: int|
                0 <= i < N && #[trigger] bad_at(candidate@, N as nat, M, i)
                && (forall|j: int| 0 <= j < i ==> !(#[trigger] bad_at(candidate@, N as nat, M, j)))
                && r == Err::<Self, CreationError>(
                    if ori_bad_at(candidate@, M, i) {
                        CreationError::InvalidOrientation
                    } else {
                        CreationError::InvalidPermutation
                    },
                ),
    {
        match Self::check(&candidate) {
            Ok(()) => Ok(Array { pairs: candidate }),
            Err(e) => Err(e),
        }
    }

    /// Builds a cubie array from input already known to be valid.
    pub fn new(candidate: Vec<(u8, u8)>) -> (r: Self)
        requires
            is_valid(candidate@, N as nat, M),
        ensures
            r@ == candidate@,
            r.wf(),
    {
        Array { pairs: candidate }
    }

    /// Composes this array with `that`: the result routes each position
    /// through `that`, then through `self`, adding orientations modulo `M`.
    pub fn permute(&self, that: &Self) -> (r: Self)
        requires
            self.wf(),
            that.wf(),
            M >= 1,
        ensures
            r@ == compose(self@, that@, M),
            r.wf(),
    {
        let mut pairs: Vec<(u8, u8)> = Vec::new();
        let mut ix: usize = 0;
        while ix < N
            invariant
                ix <= N,
                self.wf(),
                that.wf(),
                M >= 1,
                pairs@.len() == ix,
                forall|i: int| 0 <= i < ix ==> pairs@[i] == compose(self@, that@, M)[i],
            decreases N - ix,
        {
            let (jx, o1) = that.pairs[ix];
            let (j, o2) = self.pairs[jx as usize];
            let o = ((o1 as u16 + o2 as u16) % M as u16) as u8;
            pairs.push((j, o));
            ix = ix + 1;
        }
        let r = Array { pairs };
        proof {
            assert(r@ =~= compose(self@, that@, M));
            assert forall|i: int| 0 <= i < N implies (#[trigger] r@[i]).1 < M by {}
        }
        r
    }
}

} // verus!

verus! {

use crate::util::{fact, pow, binom, power, lemma_pow_monotone, lemma_pow_positive};

/// The sum of all orientations of `s`.
pub open spec fn o_sum(s: Seq<(u8, u8)>) -> int
    decreases s.len(),
{
    if s.len() == 0 {
        0
    } else {
        o_sum(s.drop_last()) + s.last().1
    }
}

/// The first `k` orientations of `s`, read as digits of a base-`m` numeral,
/// most significant first.
pub open spec fn o_val_prefix(s: Seq<(u8, u8)>, k: int, m: u8) -> int
    decreases k,
{
    if k <= 0 {
        0
    } else {
        o_val_prefix(s, k - 1, m) * m + s[k - 1].1
    }
}

/// The orientation coordinate of a cubie array: its first `len - 1`
/// orientations as a base-`m` numeral. The last orientation carries no
/// information because every reachable array has orientation sum zero
/// modulo `m`.
pub open spec fn o_val(s: Seq<(u8, u8)>, m: u8) -> int {
    o_val_prefix(s, s.len() - 1, m)
}

/// The base-`m` digits of `t`, as a sequence of `k` digits, most
/// significant first.
pub open spec fn o_dec(t: int, k: nat, m: u8) -> Seq<u8>
    decreases k,
{
    if k == 0 {
        Seq::empty()
    } else {
        o_dec(t / (m as int), (k - 1) as nat, m).push((t % (m as int)) as u8)
    }
}

/// The sum of a digit sequence.
pub open spec fn digit_sum(d: Seq<u8>) -> int
    decreases d.len(),
{
    if d.len() == 0 {
        0
    } else {
        digit_sum(d.drop_last()) + d.last()
    }
}

/// The orientation that completes `digits` to a sequence whose sum is zero
/// modulo `m`.
pub open spec fn o_fixup(digits: Seq<u8>, m: u8) -> u8 {
    ((((m as int) - digit_sum(digits) % (m as int)) % (m as int))) as u8
}

/// `o_val_prefix` reads only the first `k` entries.
pub proof fn lemma_o_val_prefix_congruence(s1: Seq<(u8, u8)>, s2: Seq<(u8, u8)>, k: int, m: u8)
    requires
        forall|i: int| 0 <= i < k ==> s1[i].1 == s2[i].1,
    ensures
        o_val_prefix(s1, k, m) == o_val_prefix(s2, k, m),
    decreases k,
{
    if k > 0 {
        lemma_o_val_prefix_congruence(s1, s2, k - 1, m);
    }
}

/// An orientation prefix is bounded by the corresponding power of the base.
pub proof fn lemma_o_val_prefix_bound(s: Seq<(u8, u8)>, k: int, m: u8)
    requires
        oris_below(s, m),
        m >= 1,
        0 <= k <= s.len(),
    ensures
        0 <= o_val_prefix(s, k, m) < pow(m as nat, k as nat),
    decreases k,
{
    if k <= 0 {
    } else {
        lemma_o_val_prefix_bound(s, k - 1, m);
        assert(o_val_prefix(s, k, m) == o_val_prefix(s, k - 1, m) * m + s[k - 1].1);
        assert(pow(m as nat, k as nat) == m * pow(m as nat, (k - 1) as nat));
        assert(o_val_prefix(s, k - 1, m) * m <= (pow(m as nat, (k - 1) as nat) - 1) * m)
            by (nonlinear_arith)
            requires o_val_prefix(s, k - 1, m) <= pow(m as nat, (k - 1) as nat) - 1, m >= 1;
        assert(o_val_prefix(s, k - 1, m) * m >= 0) by (nonlinear_arith)
            requires o_val_prefix(s, k - 1, m) >= 0, m >= 1;
        assert((pow(m as nat, (k - 1) as nat) - 1) * m == m * pow(m as nat, (k - 1) as nat) - m)
            by (nonlinear_arith);
    }
}

/// Reading back the digits of `t` recovers `t`.
pub proof fn lemma_o_dec_val(t: int, k: nat, m: u8, s: Seq<(u8, u8)>)
    requires
        m >= 1,
        0 <= t < pow(m as nat, k),
        s.len() >= k,
        forall|i: int| 0 <= i < k ==> s[i].1 == o_dec(t, k, m)[i],
    ensures
        o_val_prefix(s, k as int, m) == t,
    decreases k,
{
    if k == 0 {
        assert(pow(m as nat, 0) == 1);
    } else {
        let d = o_dec(t, k, m);
        let dp = o_dec(t / (m as int), (k - 1) as nat, m);
        lemma_o_dec_len(t / (m as int), (k - 1) as nat, m);
        assert(d == dp.push((t % (m as int)) as u8));
        assert(forall|i: int| 0 <= i < k - 1 ==> d[i] == dp[i]);
        vstd::arithmetic::div_mod::lemma_fundamental_div_mod(t, m as int);
        assert(t / (m as int) < pow(m as nat, (k - 1) as nat)) by (nonlinear_arith)
            requires
                t < pow(m as nat, k),
                pow(m as nat, k) == m * pow(m as nat, (k - 1) as nat),
                m >= 1,
                t / (m as int) * (m as int) + t % (m as int) == t,
                t % (m as int) >= 0;
        assert forall|i: int| 0 <= i < k - 1 implies s[i].1 == dp[i] by {
            assert(s[i].1 == d[i]);
        }
        lemma_o_dec_val(t / (m as int), (k - 1) as nat, m, s);
        assert(d[k - 1] == (t % (m as int)) as u8);
        assert(s[k - 1].1 == d[k - 1]);
        assert(t % (m as int) >= 0);
    }
}

/// A digit sequence has as many digits as asked for.
pub proof fn lemma_o_dec_len(t: int, k: nat, m: u8)
    ensures
        o_dec(t, k, m).len() == k,
    decreases k,
{
    if k > 0 {
        lemma_o_dec_len(t / (m as int), (k - 1) as nat, m);
    }
}

/// Every digit of a digit sequence lies below the base.
pub proof fn lemma_o_dec_below(t: int, k: nat, m: u8)
    requires
        m >= 1,
        t >= 0,
    ensures
        forall|i: int| 0 <= i < o_dec(t, k, m).len() ==> (#[trigger] o_dec(t, k, m)[i]) < m,
    decreases k,
{
    if k > 0 {
        let tq = t / (m as int);
        vstd::arithmetic::div_mod::lemma_fundamental_div_mod(t, m as int);
        assert(tq >= 0) by (nonlinear_arith)
            requires t >= 0, m >= 1, tq * m + t % (m as int) == t, 0 <= t % (m as int) < m;
        lemma_o_dec_below(tq, (k - 1) as nat, m);
        lemma_o_dec_len(tq, (k - 1) as nat, m);
        assert(0 <= t % (m as int) < m);
    }
}

} // verus!

verus! {

/// The orientation coordinate of a cubie array over `N` elements modulo
/// `M`: an integer in `[0, M^(N-1))`.
#[derive(Clone, Copy, Debug, Default, Eq, PartialEq)]
pub struct OrientationCoord<const N: usize, const M: u8> {
    value: u16,
}

impl<const N: usize, const M: u8> View for OrientationCoord<N, M> {
    type V = int;

    closed spec fn view(&self) -> int {
        self.value as int
    }
}

impl<const N: usize, const M: u8> OrientationCoord<N, M> {
    /// Well-formedness: the value lies inside the coordinate space.
    pub open spec fn wf(self) -> bool {
        0 <= self@ < pow(M as nat, (N - 1) as nat)
    }

    /// The number of coordinates in this space, `M^(N-1)`.
    pub fn bound() -> (r: usize)
        requires
            N >= 1,
            M >= 1,
            pow(M as nat, (N - 1) as nat) <= 0x1_0000,
        ensures
            r == pow(M as nat, (N - 1) as nat),
    {
        if N == 1 {
            1
        } else {
            power(M, N - 1)
        }
    }

    /// The coordinate with the given value; `None` when it is out of range.
    pub fn try_from(value: usize) -> (r: Option<Self>)
        requires
            N >= 1,
            M >= 1,
            pow(M as nat, (N - 1) as nat) <= 0x1_0000,
        ensures
            r is Some <==> value < pow(M as nat, (N - 1) as nat),
            r is Some ==> r->0@ == value && r->0.wf(),
    {
        if value < Self::bound() {
            Some(OrientationCoord { value: value as u16 })
        } else {
            None
        }
    }

    /// The value as an index.
    pub fn index(self) -> (r: usize)
        ensures
            r == self@,
    {
        self.value as usize
    }

    /// Every coordinate of this space, in increasing order.
    pub fn all() -> (r: Vec<Self>)
        requires
            N >= 1,
            M >= 1,
            pow(M as nat, (N - 1) as nat) <= 0x1_0000,
        ensures
            r.len() == pow(M as nat, (N - 1) as nat),
            forall|i: int| 0 <= i < r.len() ==> (#[trigger] r[i])@ == i && r[i].wf(),
    {
        let bound = Self::bound();
        let mut out: Vec<Self> = Vec::new();
        let mut i: usize = 0;
        while i < bound
            invariant
                i <= bound,
                bound == pow(M as nat, (N - 1) as nat) <= 0x1_0000,
                out.len() == i,
                forall|j: int| 0 <= j < i ==> (#[trigger] out[j])@ == j && out[j].wf(),
            decreases bound - i,
        {
            out.push(OrientationCoord { value: i as u16 });
            i = i + 1;
        }
        out
    }

    /// The canonical cubie array of this coordinate: the identity
    /// permutation carrying the decoded orientations, whose last entry
    /// restores an orientation sum of zero modulo `M`.
    pub fn array(self) -> (r: Array<N, M>)
        requires
            N >= 1,
            N <= 256,
            M >= 1,
            self.wf(),
            pow(M as nat, (N - 1) as nat) <= 0x1_0000,
        ensures
            r.wf(),
            r@ == o_canon(self@, N as nat, M),
            o_val(r@, M) == self@,
            forall|i: int| 0 <= i < N ==> (#[trigger] r@[i]).0 == i,
            o_sum(r@) % (M as int) == 0,
    {
        let ghost t0 = self@;
        let ghost ds = o_dec(t0, (N - 1) as nat, M);
        proof {
            lemma_o_dec_len(t0, (N - 1) as nat, M);
            lemma_o_dec_below(t0, (N - 1) as nat, M);
        }
        // base-M digits of the coordinate, least significant first
        let mut digits: Vec<u8> = Vec::new();
        let mut i: usize = 0;
        let mut t: u16 = self.value;
        proof {
            vstd::arithmetic::div_mod::lemma_div_basics(t0);
            assert(pow(M as nat, 0) == 1);
        }
        while i < N - 1
            invariant
                0 <= i <= N - 1,
                N <= 256,
                M >= 1,
                t0 == self@,
                0 <= t0 < pow(M as nat, (N - 1) as nat) <= 0x1_0000,
                ds == o_dec(t0, (N - 1) as nat, M),
                ds.len() == N - 1,
                digits.len() == i,
                t == t0 / (pow(M as nat, i as nat) as int),
                forall|j: int| 0 <= j < i ==> (#[trigger] digits[j]) == ds[N - 2 - j],
            decreases N - i,
        {
            proof {
                lemma_o_dec_len(t0, (N - 1) as nat, M);
                lemma_o_dec_unroll(t0, (N - 1) as nat, M, i as nat);
                lemma_pow_positive(M as nat, i as nat);
                vstd::arithmetic::div_mod::lemma_div_denominator(
                    t0, pow(M as nat, i as nat) as int, M as int);
                assert(pow(M as nat, (i + 1) as nat) == (M as nat) * pow(M as nat, i as nat));
                assert((pow(M as nat, i as nat) * M as nat) == (M as nat) * pow(M as nat, i as nat))
                    by (nonlinear_arith);
                vstd::arithmetic::div_mod::lemma_div_pos_is_pos(t0, pow(M as nat, i as nat) as int);
            }
            digits.push((t % M as u16) as u8);
            t = t / M as u16;
            i = i + 1;
        }
        // lay the digits out most significant first over the identity permutation
        let mut pairs: Vec<(u8, u8)> = Vec::new();
        let mut ix: usize = 0;
        while ix < N - 1
            invariant
                0 <= ix <= N - 1,
                N <= 256,
                digits.len() == N - 1,
                ds.len() == N - 1,
                forall|j: int| 0 <= j < N - 1 ==> (#[trigger] digits[j]) == ds[N - 2 - j],
                pairs.len() == ix,
                forall|l: int| 0 <= l < ix ==> (#[trigger] pairs[l]) == (l as u8, ds[l]),
            decreases N - ix,
        {
            proof {
                assert(digits[(N - 2 - ix) as int] == ds[N - 2 - (N - 2 - ix)]);
            }
            pairs.push((ix as u8, digits[N - 2 - ix]));
            ix = ix + 1;
        }
        // the completing orientation
        let mut s: u16 = 0;
        let mut j: usize = 0;
        proof {
            vstd::arithmetic::div_mod::lemma_small_mod(0, M as nat);
        }
        while j < N - 1
            invariant
                0 <= j <= N - 1,
                M >= 1,
                pairs.len() == N - 1,
                ds.len() == N - 1,
                forall|l: int| 0 <= l < N - 1 ==> (#[trigger] pairs[l]) == (l as u8, ds[l]),
                forall|l: int| 0 <= l < ds.len() ==> (#[trigger] ds[l]) < M,
                s == ori_sum_prefix(pairs@, j as int) % (M as int),
            decreases N - j,
        {
            proof {
                assert(ori_sum_prefix(pairs@, j + 1) == ori_sum_prefix(pairs@, j as int) + pairs@[j as int].1);
                lemma_ori_sum_prefix_nonneg(pairs@, j as int);
                lemma_mod_add_aligned(ori_sum_prefix(pairs@, j as int), pairs@[j as int].1 as int, M as int);
            }
            s = (s + pairs[j].1 as u16) % M as u16;
            j = j + 1;
        }
        let last: u8 = ((M as u16 - s) % M as u16) as u8;
        let ghost pre = pairs@;
        pairs.push(((N - 1) as u8, last));
        let r = Array::new(pairs);
        proof {
            let p = r@;
            assert(forall|l: int| 0 <= l < N - 1 ==> p[l] == pre[l]);
            lemma_ori_sum_prefix_congruence(pre, p, (N - 1) as int);
            assert forall|a: int, b: int| 0 <= a < b < N implies p[a].0 != p[b].0 by {}
            assert forall|a: int| 0 <= a < N implies (#[trigger] p[a]).1 < M by {}
            // the encoded value reads the digits back
            assert forall|a: int| 0 <= a < N - 1 implies p[a].1 == ds[a] by {}
            lemma_o_dec_val(t0, (N - 1) as nat, M, p);
            assert(o_val(p, M) == t0);
            // the orientation sum is zero modulo M
            lemma_o_sum_is_prefix(p);
            lemma_ori_sum_prefix_nonneg(p, (N - 1) as int);
            assert(o_sum(p) == ori_sum_prefix(p, N as int));
            assert(ori_sum_prefix(p, N as int) == ori_sum_prefix(p, (N - 1) as int) + last);
            lemma_fixup_cancels(ori_sum_prefix(p, (N - 1) as int), M as int);
            lemma_digit_sum_matches(p, ds, (N - 1) as int);
            assert(p =~= o_canon(t0, N as nat, M));
        }
        r
    }
}

} // verus!

verus! {

/// The sum of the first `k` orientations of `s`.
pub open spec fn ori_sum_prefix(s: Seq<(u8, u8)>, k: int) -> int
    decreases k,
{
    if k <= 0 {
        0
    } else {
        ori_sum_prefix(s, k - 1) + s[k - 1].1
    }
}

/// `o_sum` is the orientation sum over the whole sequence.
pub proof fn lemma_o_sum_is_prefix(s: Seq<(u8, u8)>)
    ensures
        o_sum(s) == ori_sum_prefix(s, s.len() as int),
    decreases s.len(),
{
    if s.len() > 0 {
        lemma_o_sum_is_prefix(s.drop_last());
        lemma_ori_sum_prefix_congruence(s.drop_last(), s, s.len() - 1);
    }
}

/// `ori_sum_prefix` reads only the first `k` entries.
pub proof fn lemma_ori_sum_prefix_congruence(s1: Seq<(u8, u8)>, s2: Seq<(u8, u8)>, k: int)
    requires
        forall|i: int| 0 <= i < k ==> s1[i].1 == s2[i].1,
    ensures
        ori_sum_prefix(s1, k) == ori_sum_prefix(s2, k),
    decreases k,
{
    if k > 0 {
        lemma_ori_sum_prefix_congruence(s1, s2, k - 1);
    }
}

/// An orientation sum is never negative.
pub proof fn lemma_ori_sum_prefix_nonneg(s: Seq<(u8, u8)>, k: int)
    ensures
        ori_sum_prefix(s, k) >= 0,
    decreases k,
{
    if k > 0 {
        lemma_ori_sum_prefix_nonneg(s, k - 1);
    }
}

/// Adding a summand to a value already reduced modulo `m` keeps the residue.
pub proof fn lemma_mod_add_aligned(a: int, b: int, m: int)
    requires
        m >= 1,
        a >= 0,
        b >= 0,
    ensures
        (a % m + b) % m == (a + b) % m,
{
    vstd::arithmetic::div_mod::lemma_add_mod_noop(a, b, m);
    vstd::arithmetic::div_mod::lemma_mod_twice(a, m);
    vstd::arithmetic::div_mod::lemma_add_mod_noop(a % m, b, m);
}

/// The completing orientation cancels the sum modulo `m`.
pub proof fn lemma_fixup_cancels(a: int, m: int)
    requires
        m >= 1,
        a >= 0,
    ensures
        (a + ((m - a % m) % m)) % m == 0,
{
    let r = a % m;
    vstd::arithmetic::div_mod::lemma_fundamental_div_mod(a, m);
    if r == 0 {
        vstd::arithmetic::div_mod::lemma_mod_self_0(m);
        vstd::arithmetic::div_mod::lemma_mod_multiples_basic(a / m, m);
    } else {
        vstd::arithmetic::div_mod::lemma_small_mod((m - r) as nat, m as nat);
        assert(a + (m - r) == (a / m + 1) * m) by (nonlinear_arith)
            requires a == m * (a / m) + r;
        vstd::arithmetic::div_mod::lemma_mod_multiples_basic(a / m + 1, m);
    }
}

/// Each digit of `o_dec(t, k, m)`, counted from the least significant end,
/// is the matching base-`m` digit of `t`.
pub proof fn lemma_o_dec_unroll(t: int, k: nat, m: u8, i: nat)
    requires
        m >= 1,
        t >= 0,
        i < k,
    ensures
        o_dec(t, k, m)[k - 1 - i] == ((t / pow(m as nat, i) as int) % (m as int)) as u8,
    decreases i,
{
    lemma_o_dec_len(t / (m as int), (k - 1) as nat, m);
    vstd::arithmetic::div_mod::lemma_div_pos_is_pos(t, m as int);
    if i == 0 {
        assert(pow(m as nat, 0) == 1);
        assert(t / 1 == t) by (nonlinear_arith);
    } else {
        lemma_o_dec_unroll(t / (m as int), (k - 1) as nat, m, (i - 1) as nat);
        lemma_pow_positive(m as nat, (i - 1) as nat);
        vstd::arithmetic::div_mod::lemma_div_denominator(
            t, m as int, pow(m as nat, (i - 1) as nat) as int);
        assert(pow(m as nat, i) == (m as nat) * pow(m as nat, (i - 1) as nat));
        assert(o_dec(t, k, m)[k - 1 - i] == o_dec(t / (m as int), (k - 1) as nat, m)[k - 2 - (i - 1)]);
    }
}

} // verus!

verus! {

use crate::util::{lemma_fact_monotone, lemma_fact_12};

impl<const N: usize, const M: u8> Array<N, M> {
    /// The orientation coordinate of this array: its first `N - 1`
    /// orientations as a base-`M` numeral.
    pub fn o_coordinate(&self) -> (r: OrientationCoord<N, M>)
        requires
            self.wf(),
            N >= 1,
            M >= 1,
            pow(M as nat, (N - 1) as nat) <= 0x1_0000,
        ensures
            r@ == o_val(self@, M),
            r.wf(),
    {
        let mut t: u16 = 0;
        let mut i: usize = 0;
        while i < N - 1
            invariant
                0 <= i <= N - 1,
                self.wf(),
                M >= 1,
                pow(M as nat, (N - 1) as nat) <= 0x1_0000,
                t == o_val_prefix(self@, i as int, M),
            decreases N - i,
        {
            proof {
                lemma_o_val_prefix_bound(self@, i as int, M);
                lemma_o_val_prefix_bound(self@, (i + 1) as int, M);
                lemma_pow_monotone(M as nat, (i + 1) as nat, (N - 1) as nat);
            }
            t = t * M as u16 + self.pairs[i].1 as u16;
            i = i + 1;
        }
        proof {
            lemma_o_val_prefix_bound(self@, (N - 1) as int, M);
        }
        OrientationCoord { value: t }
    }
}

/// How many of the elements of `s` at positions `a <= i < b` are smaller
/// than `v`.
pub open spec fn count_lt_range(s: Seq<(u8, u8)>, a: int, b: int, v: u8) -> int
    decreases b - a,
{
    if b <= a {
        0
    } else {
        count_lt_range(s, a, b - 1, v) + if s[b - 1].0 < v { 1int } else { 0int }
    }
}

/// The Lehmer code of the suffix of `s` that starts at `ix`: the inversion
/// count of each position, weighted by the factorial of the number of
/// positions after it.
pub open spec fn lehmer_from(s: Seq<(u8, u8)>, ix: int) -> int
    decreases s.len() - ix,
{
    if ix >= s.len() - 1 {
        0
    } else {
        count_lt_range(s, ix + 1, s.len() as int, s[ix].0) * fact((s.len() - 1 - ix) as nat)
            + lehmer_from(s, ix + 1)
    }
}

/// The Lehmer code of a cubie array's permutation.
pub open spec fn lehmer(s: Seq<(u8, u8)>) -> int {
    lehmer_from(s, 0)
}

/// A count over a range never exceeds the range's width.
pub proof fn lemma_count_lt_range_bound(s: Seq<(u8, u8)>, a: int, b: int, v: u8)
    requires
        a <= b,
    ensures
        0 <= count_lt_range(s, a, b, v) <= b - a,
    decreases b - a,
{
    if a < b {
        lemma_count_lt_range_bound(s, a, b - 1, v);
    }
}

/// A Lehmer code lies inside the factorial coordinate space of its suffix.
pub proof fn lemma_lehmer_from_bound(s: Seq<(u8, u8)>, ix: int)
    requires
        0 <= ix <= s.len(),
    ensures
        0 <= lehmer_from(s, ix) < fact((s.len() - ix) as nat),
    decreases s.len() - ix,
{
    let n = s.len() as int;
    if ix >= n - 1 {
        assert(fact((n - ix) as nat) >= 1) by {
            lemma_fact_monotone(0, (n - ix) as nat);
        }
    } else {
        lemma_lehmer_from_bound(s, ix + 1);
        lemma_count_lt_range_bound(s, ix + 1, n, s[ix].0);
        let c = count_lt_range(s, ix + 1, n, s[ix].0);
        let f = fact((n - 1 - ix) as nat);
        assert(fact((n - ix) as nat) == (n - ix) * f);
        assert(c * f <= (n - 1 - ix) * f) by (nonlinear_arith)
            requires c <= n - 1 - ix, f >= 0;
        assert(c * f >= 0) by (nonlinear_arith)
            requires c >= 0, f >= 0;
        assert((n - 1 - ix) * f + f == (n - ix) * f) by (nonlinear_arith);
    }
}

impl<const N: usize, const M: u8> Array<N, M> {
    /// The Lehmer-code coordinate of this array's permutation component.
    pub fn p_coordinate(&self) -> (r: PermutationCoord<N>)
        requires
            self.wf(),
            1 <= N <= 12,
        ensures
            r@ == lehmer(self@),
            r.wf(),
    {
        let mut acc: u32 = 0;
        let mut f: u32 = 1;
        let mut ix: usize = N;
        while ix > 0
            invariant
                0 <= ix <= N <= 12,
                self.wf(),
                acc == lehmer_from(self@, ix as int),
                f == fact((N - ix) as nat),
            decreases ix,
        {
            ix = ix - 1;
            let mut cnt: u32 = 0;
            let mut jx: usize = ix + 1;
            while jx < N
                invariant
                    ix < jx <= N <= 12,
                    self.wf(),
                    cnt == count_lt_range(self@, ix + 1, jx as int, self.pairs@[ix as int].0),
                decreases N - jx,
            {
                proof {
                    lemma_count_lt_range_bound(self@, ix + 1, jx as int, self.pairs@[ix as int].0);
                }
                if self.pairs[ix].0 > self.pairs[jx].0 {
                    cnt = cnt + 1;
                }
                jx = jx + 1;
            }
            proof {
                lemma_fact_12();
                lemma_fact_monotone((N - ix) as nat, 12);
                lemma_lehmer_from_bound(self@, ix as int);
                lemma_lehmer_from_bound(self@, ix + 1);
                lemma_count_lt_range_bound(self@, ix + 1, N as int, self.pairs@[ix as int].0);
                assert(fact((N - ix) as nat) == (N - ix) * fact((N - 1 - ix) as nat));
                assert(fact((N - 1 - ix) as nat) * (N - ix) == (N - ix) * fact((N - 1 - ix) as nat))
                    by (nonlinear_arith);
                let c = count_lt_range(self@, ix + 1, N as int, self@[ix as int].0);
                let fs = fact((N - 1 - ix) as nat);
                assert(lehmer_from(self@, ix as int)
                    == if ix == N - 1 { 0int } else { c * fs + lehmer_from(self@, ix + 1) });
                if ix == N - 1 {
                    assert(c == 0) by {
                        lemma_count_lt_range_bound(self@, ix + 1, N as int, self@[ix as int].0);
                    }
                }
                assert(cnt * f == c * fs) by (nonlinear_arith)
                    requires cnt == c, f == fs;
                assert(acc == lehmer_from(self@, ix + 1));
                if ix == N - 1 {
                    assert(lehmer_from(self@, ix as int) == 0);
                    assert(cnt == 0);
                    assert(cnt * f == 0) by (nonlinear_arith) requires cnt == 0;
                } else {
                    assert(lehmer_from(self@, ix as int) == c * fs + lehmer_from(self@, ix + 1));
                }
                assert(cnt * f + acc == lehmer_from(self@, ix as int));
                assert(lehmer_from(self@, ix as int) < fact((N - ix) as nat));
            }
            acc = cnt * f + acc;
            f = f * (N - ix) as u32;
        }
        proof {
            lemma_lehmer_from_bound(self@, 0);
        }
        PermutationCoord { value: acc }
    }
}

/// The permutation coordinate of a cubie array over `N` elements: an
/// integer in `[0, N!)`, the Lehmer code of the permutation.
#[derive(Clone, Copy, Debug, Default, Eq, PartialEq)]
pub struct PermutationCoord<const N: usize> {
    value: u32,
}

impl<const N: usize> View for PermutationCoord<N> {
    type V = int;

    closed spec fn view(&self) -> int {
        self.value as int
    }
}

impl<const N: usize> PermutationCoord<N> {
    /// Well-formedness: the value lies inside the coordinate space.
    pub open spec fn wf(self) -> bool {
        0 <= self@ < fact(N as nat)
    }

    /// The number of coordinates in this space, `N!`.
    pub fn bound() -> (r: usize)
        requires
            1 <= N <= 12,
        ensures
            r == fact(N as nat),
    {
        crate::util::factorial(N)
    }

    /// The coordinate with the given value; `None` when it is out of range.
    pub fn try_from(value: usize) -> (r: Option<Self>)
        requires
            1 <= N <= 12,
        ensures
            r is Some <==> value < fact(N as nat),
            r is Some ==> r->0@ == value && r->0.wf(),
    {
        proof {
            lemma_fact_12();
            lemma_fact_monotone(N as nat, 12);
        }
        if value < Self::bound() {
            Some(PermutationCoord { value: value as u32 })
        } else {
            None
        }
    }

    /// The value as an index.
    pub fn index(self) -> (r: usize)
        ensures
            r == self@,
    {
        self.value as usize
    }

    /// Every coordinate of this space, in increasing order.
    pub fn all() -> (r: Vec<Self>)
        requires
            1 <= N <= 12,
        ensures
            r.len() == fact(N as nat),
            forall|i: int| 0 <= i < r.len() ==> (#[trigger] r[i])@ == i && r[i].wf(),
    {
        proof {
            lemma_fact_12();
            lemma_fact_monotone(N as nat, 12);
        }
        let bound = Self::bound();
        let mut out: Vec<Self> = Vec::new();
        let mut i: usize = 0;
        while i < bound
            invariant
                i <= bound,
                bound == fact(N as nat) <= 479001600,
                out.len() == i,
                forall|j: int| 0 <= j < i ==> (#[trigger] out[j])@ == j && out[j].wf(),
            decreases bound - i,
        {
            out.push(PermutationCoord { value: i as u32 });
            i = i + 1;
        }
        out
    }
}

} // verus!

verus! {

/// Every element at least `d` moved up by one; the relative order of the
/// elements is unchanged.
pub open spec fn shift_ge(s: Seq<u8>, d: u8) -> Seq<u8> {
    Seq::new(s.len(), |i: int| if s[i] >= d { #[verifier::truncate] ((s[i] + 1) as u8) } else { s[i] })
}

/// The permutation with Lehmer code `t` over `k` elements, in the factorial
/// number system: the leading digit picks the first element, and the rest
/// of the permutation is decoded recursively and lifted over it.
pub open spec fn p_dec(t: int, k: nat) -> Seq<u8>
    decreases k,
{
    if k <= 1 {
        seq![0u8]
    } else {
        let f = fact((k - 1) as nat) as int;
        let d = t / f;
        seq![#[verifier::truncate] (d as u8)].add(shift_ge(p_dec(t % f, (k - 1) as nat), #[verifier::truncate] (d as u8)))
    }
}

/// `fact` is never zero.
pub proof fn lemma_fact_positive(k: nat)
    ensures
        fact(k) >= 1,
{
    lemma_fact_monotone(0, k);
}

/// The decoded permutation of `k` elements: `k` distinct values below `k`.
pub proof fn lemma_p_dec_permseq(t: int, k: nat)
    requires
        1 <= k <= 255,
        0 <= t < fact(k),
    ensures
        p_dec(t, k).len() == k,
        forall|i: int| 0 <= i < k ==> (#[trigger] p_dec(t, k)[i]) < k,
        forall|i: int, j: int| 0 <= i < j < k ==> p_dec(t, k)[i] != p_dec(t, k)[j],
    decreases k,
{
    if k == 1 {
        assert(p_dec(t, k) == seq![0u8]);
    } else {
        let f = fact((k - 1) as nat) as int;
        let d = t / f;
        lemma_fact_positive((k - 1) as nat);
        vstd::arithmetic::div_mod::lemma_fundamental_div_mod(t, f);
        assert(fact(k) == k * fact((k - 1) as nat));
        assert(0 <= d < k) by (nonlinear_arith)
            requires
                t == f * d + t % f,
                0 <= t % f < f,
                0 <= t < k * f,
                f >= 1;
        lemma_p_dec_permseq(t % f, (k - 1) as nat);
        let sub = p_dec(t % f, (k - 1) as nat);
        let sh = shift_ge(sub, d as u8);
        let whole = p_dec(t, k);
        assert(whole == seq![d as u8].add(sh));
        assert(whole.len() == k);
        assert forall|i: int| 0 <= i < k implies (#[trigger] whole[i]) < k by {
            if i > 0 {
                assert(whole[i] == sh[i - 1]);
                assert(sub[i - 1] < k - 1 <= 254);
                assert(sh[i - 1] == if sub[i - 1] >= d as u8 { (sub[i - 1] + 1) as u8 } else { sub[i - 1] });
            }
        }
        assert forall|i: int, j: int| 0 <= i < j < k implies whole[i] != whole[j] by {
            if i == 0 {
                assert(whole[j] == sh[j - 1]);
                assert(sub[j - 1] < k - 1 <= 254);
                if sub[j - 1] >= d as u8 {
                    assert(whole[j] == sub[j - 1] + 1 > d);
                } else {
                    assert(whole[j] == sub[j - 1] < d);
                }
            } else {
                assert(whole[i] == sh[i - 1] && whole[j] == sh[j - 1]);
                assert(sub[i - 1] != sub[j - 1]);
                assert(sub[i - 1] < k - 1 <= 254);
                assert(sub[j - 1] < k - 1 <= 254);
                assert(sh[i - 1] == if sub[i - 1] >= d as u8 { (sub[i - 1] + 1) as u8 } else { sub[i - 1] });
                assert(sh[j - 1] == if sub[j - 1] >= d as u8 { (sub[j - 1] + 1) as u8 } else { sub[j - 1] });
            }
        }
    }
}

impl<const N: usize> PermutationCoord<N> {
    /// The canonical cubie array of this coordinate: the decoded
    /// permutation with all orientations zero.
    pub fn array<const M: u8>(self) -> (r: Array<N, M>)
        requires
            1 <= N <= 12,
            M >= 1,
            self.wf(),
        ensures
            r.wf(),
            r@.len() == N,
            forall|i: int| 0 <= i < N ==> (#[trigger] r@[i]) == (p_dec(self@, N as nat)[i], 0u8),
    {
        let ghost t0 = self@;
        proof {
            lemma_p_dec_permseq(t0, N as nat);
        }
        let mut pm: Vec<u8> = Vec::new();
        let mut z: usize = 0;
        while z < N
            invariant
                z <= N,
                pm.len() == z,
                forall|i: int| 0 <= i < z ==> (#[trigger] pm@[i]) == 0u8,
            decreases N - z,
        {
            pm.push(0);
            z = z + 1;
        }
        let mut t: u32 = self.value;
        let mut built: usize = 1;
        proof {
            reveal_with_fuel(fact, 2);
            vstd::arithmetic::div_mod::lemma_div_basics(t0);
            assert(t0 % 1 == 0) by (nonlinear_arith);
            assert(p_dec(t0 % 1, 1) == seq![0u8]);
        }
        while built < N
            invariant
                1 <= built <= N <= 12,
                0 <= t0 < fact(N as nat),
                pm.len() == N,
                t == t0 / (fact(built as nat) as int),
                forall|i: int| 0 <= i < N - built ==> (#[trigger] pm@[i]) == 0u8,
                forall|i: int| N - built <= i < N ==>
                    (#[trigger] pm@[i]) == p_dec(t0 % (fact(built as nat) as int), built as nat)[i - (N - built)],
            decreases N - built,
        {
            let ix = N - 1 - built;
            let r = (built + 1) as u32;
            let ghost f = fact(built as nat) as int;
            let ghost bf = fact((built + 1) as nat) as int;
            let ghost q = (t0 / f) % (built + 1);
            proof {
                lemma_fact_positive(built as nat);
                lemma_fact_positive((built + 1) as nat);
                assert(bf == (built + 1) * f);
                assert((built + 1) * f == f * (built + 1)) by (nonlinear_arith);
                vstd::arithmetic::div_mod::lemma_breakdown(t0, f, built + 1);
                // t0 % bf == f * q + t0 % f
                vstd::arithmetic::div_mod::lemma_div_multiples_vanish_fancy(q, t0 % f, f);
                // (f * q + t0 % f) / f == q
                vstd::arithmetic::div_mod::lemma_mod_multiples_vanish(q, t0 % f, f);
                vstd::arithmetic::div_mod::lemma_mod_bound(t0, f);
                vstd::arithmetic::div_mod::lemma_small_mod((t0 % f) as nat, f as nat);
                // (f * q + t0 % f) % f == t0 % f
                vstd::arithmetic::div_mod::lemma_div_denominator(t0, f, built + 1);
                // (t0 / f) / (built + 1) == t0 / bf
                vstd::arithmetic::div_mod::lemma_mod_bound(t0 / f, built + 1);
                vstd::arithmetic::div_mod::lemma_div_pos_is_pos(t0, f);
                lemma_p_dec_permseq(t0 % f, built as nat);
            }
            let d = (t % r) as u8;
            let ghost before = pm@;
            pm.set(ix, d);
            let mut jx: usize = ix + 1;
            while jx < N
                invariant
                    ix + 1 <= jx <= N,
                    ix == N - 1 - built,
                    1 <= built < N <= 12,
                    pm.len() == N,
                    d < built + 1,
                    before.len() == N,
                    forall|i: int| 0 <= i < ix ==> (#[trigger] pm@[i]) == 0u8,
                    forall|i: int| 0 <= i < ix ==> (#[trigger] before[i]) == 0u8,
                    pm@[ix as int] == d,
                    forall|i: int| ix < i < N ==> (#[trigger] before[i]) < built,
                    forall|i: int| ix < i < jx ==>
                        (#[trigger] pm@[i]) == shift_ge(before.subrange(ix + 1, N as int), d)[i - ix - 1],
                    forall|i: int| jx <= i < N ==> (#[trigger] pm@[i]) == before[i],
                decreases N - jx,
            {
                proof {
                    assert(shift_ge(before.subrange(ix + 1, N as int), d)[jx - ix - 1]
                        == if before[jx as int] >= d { (before[jx as int] + 1) as u8 } else { before[jx as int] });
                }
                let v = pm[jx];
                if v >= d {
                    pm.set(jx, v + 1);
                }
                jx = jx + 1;
            }
            t = t / r;
            built = built + 1;
            proof {
                let suffix_old = before.subrange(ix + 1, N as int);
                assert(suffix_old =~= p_dec(t0 % f, (built - 1) as nat)) by {
                    assert forall|i: int| 0 <= i < suffix_old.len() implies
                        suffix_old[i] == p_dec(t0 % f, (built - 1) as nat)[i] by {
                        assert(before[ix + 1 + i] == p_dec(t0 % f, (built - 1) as nat)[i]);
                    }
                }
                let whole = p_dec(t0 % bf, built as nat);
                assert(whole == seq![q as u8].add(shift_ge(p_dec(t0 % f, (built - 1) as nat), q as u8)));
                assert forall|i: int| N - built <= i < N implies
                    (#[trigger] pm@[i]) == whole[i - (N - built)] by {
                    if i == N - built {
                        assert(pm@[i] == d);
                    } else {
                        assert(pm@[i] == shift_ge(suffix_old, d)[i - ix - 1]);
                    }
                }
            }
        }
        proof {
            lemma_fact_positive(N as nat);
            vstd::arithmetic::div_mod::lemma_small_mod(t0 as nat, fact(N as nat));
        }
        let mut pairs: Vec<(u8, u8)> = Vec::new();
        let mut i: usize = 0;
        while i < N
            invariant
                i <= N <= 12,
                pm.len() == N,
                pairs.len() == i,
                forall|j: int| 0 <= j < i ==> (#[trigger] pairs@[j]) == (pm@[j], 0u8),
            decreases N - i,
        {
            pairs.push((pm[i], 0));
            i = i + 1;
        }
        proof {
            lemma_p_dec_permseq(t0, N as nat);
            assert(forall|i: int| 0 <= i < N ==> (#[trigger] pairs@[i]).0 == p_dec(t0, N as nat)[i]);
            assert(is_valid(pairs@, N as nat, M));
        }
        Array::new(pairs)
    }
}

} // verus!

verus! {

use crate::util::{binomial, lemma_binom_le_pow2, lemma_binom_over};

/// The colex rank contribution of positions `0 ..= ix`, with `r` high
/// elements still to be seen and `h` the smallest high element value:
/// every position holding an element of value at least `h` adds the
/// binomial of its index over the budget.
pub open spec fn c_val_from(s: Seq<(u8, u8)>, ix: int, r: nat, h: u8) -> int
    decreases ix + 1,
{
    if ix < 0 {
        0
    } else if s[ix].0 >= h && r >= 1 {
        binom(ix as nat, r) + c_val_from(s, ix - 1, (r - 1) as nat, h)
    } else {
        c_val_from(s, ix - 1, r, h)
    }
}

/// The combination coordinate of `s`: which positions hold the `k` highest
/// element values, ranked in the combinatorial number system.
pub open spec fn c_val(s: Seq<(u8, u8)>, n: nat, k: nat) -> int {
    c_val_from(s, n - 1, k, (n - k) as u8)
}

/// A binomial coefficient of a feasible choice is positive.
pub proof fn lemma_binom_positive(n: nat, k: nat)
    requires
        k <= n,
    ensures
        binom(n, k) >= 1,
    decreases n,
{
    if k != 0 && k <= n {
        lemma_binom_positive((n - 1) as nat, (k - 1) as nat);
    }
}

/// The rank contribution lies inside the binomial coordinate space.
pub proof fn lemma_c_val_from_bound(s: Seq<(u8, u8)>, ix: int, r: nat, h: u8)
    ensures
        0 <= c_val_from(s, ix, r, h),
        c_val_from(s, ix, r, h) == 0 || c_val_from(s, ix, r, h) <= binom((ix + 1) as nat, r) - 1,
    decreases ix + 1,
{
    if ix < 0 {
    } else if s[ix].0 >= h && r >= 1 {
        lemma_c_val_from_bound(s, ix - 1, (r - 1) as nat, h);
        let c = c_val_from(s, ix - 1, (r - 1) as nat, h);
        assert(binom((ix + 1) as nat, r) == binom(ix as nat, (r - 1) as nat) + binom(ix as nat, r));
        if c == 0 {
            if r - 1 <= ix {
                lemma_binom_positive(ix as nat, (r - 1) as nat);
            } else {
                lemma_binom_over(ix as nat, (r - 1) as nat);
                lemma_binom_over(ix as nat, r);
            }
        } else {
            assert(c <= binom(ix as nat, (r - 1) as nat) - 1);
        }
    } else {
        lemma_c_val_from_bound(s, ix - 1, r, h);
        assert(binom((ix + 1) as nat, r) >= binom(ix as nat, r)) by {
            if r != 0 && r <= ix + 1 {
                assert(binom((ix + 1) as nat, r)
                    == binom(ix as nat, (r - 1) as nat) + binom(ix as nat, r));
            } else if r != 0 {
                lemma_binom_over(ix as nat, r);
            }
        }
    }
}

/// The decoded combination prefix for positions `0 ..= ix`: descending from
/// the top, a position takes the largest unused high element when the rank
/// allows it, and otherwise the largest unused low element.
pub open spec fn c_dec(t: int, ix: int, r: nat, h: u8) -> Seq<u8>
    decreases ix + 1,
{
    if ix < 0 {
        Seq::empty()
    } else {
        let b = binom(ix as nat, r);
        if t >= b && r >= 1 {
            c_dec(t - b, ix - 1, (r - 1) as nat, h).push(#[verifier::truncate] ((h + r - 1) as u8))
        } else {
            c_dec(t, ix - 1, r, h).push(#[verifier::truncate] ((ix - r) as u8))
        }
    }
}

/// The decoded combination prefix is a partial permutation: distinct
/// values, highs below `h + r`, lows at most `ix - r`.
pub proof fn lemma_c_dec_props(t: int, ix: int, r: nat, h: u8)
    requires
        ix >= -1,
        0 <= t < binom((ix + 1) as nat, r),
        ix + 1 - r <= h,
        h + r <= 255,
    ensures
        c_dec(t, ix, r, h).len() == ix + 1,
        forall|j: int| 0 <= j <= ix ==> (#[trigger] c_dec(t, ix, r, h)[j]) < h + r,
        forall|j: int| 0 <= j <= ix && (#[trigger] c_dec(t, ix, r, h)[j]) < h
            ==> c_dec(t, ix, r, h)[j] <= ix - r,
        forall|j1: int, j2: int| 0 <= j1 < j2 <= ix
            ==> c_dec(t, ix, r, h)[j1] != c_dec(t, ix, r, h)[j2],
    decreases ix + 1,
{
    if ix < 0 {
        return;
    }
    if r > ix + 1 {
        lemma_binom_over((ix + 1) as nat, r);
        assert(false);
    }
    let b = binom(ix as nat, r);
    let whole = c_dec(t, ix, r, h);
    if t >= b && r >= 1 {
        let sub = c_dec(t - b, ix - 1, (r - 1) as nat, h);
        assert(whole == sub.push((h + r - 1) as u8));
        assert(binom((ix + 1) as nat, r) == binom(ix as nat, (r - 1) as nat) + binom(ix as nat, r));
        lemma_c_dec_props(t - b, ix - 1, (r - 1) as nat, h);
        assert forall|j1: int, j2: int| 0 <= j1 < j2 <= ix implies whole[j1] != whole[j2] by {
            if j2 < ix {
                assert(sub[j1] != sub[j2]);
            } else {
                if sub[j1] < h {
                } else {
                    assert(sub[j1] < h + r - 1);
                }
            }
        }
    } else {
        if r == 0 {
            // with no high budget the rank must be zero
            assert(binom((ix + 1) as nat, 0) == 1);
            assert(binom(ix as nat, 0) == 1);
            assert(t == 0);
        }
        if r > ix {
            // no room below this position for r high elements and a low one
            lemma_binom_over(ix as nat, r);
            assert(false);
        }
        assert(0 <= t < binom(ix as nat, r));
        let sub = c_dec(t, ix - 1, r, h);
        assert(whole == sub.push((ix - r) as u8));
        lemma_c_dec_props(t, ix - 1, r, h);
        assert forall|j1: int, j2: int| 0 <= j1 < j2 <= ix implies whole[j1] != whole[j2] by {
            if j2 < ix {
                assert(sub[j1] != sub[j2]);
            } else {
                if sub[j1] < h {
                    assert(sub[j1] <= ix - 1 - r);
                } else {
                    assert(ix - r < h <= sub[j1]);
                }
            }
        }
    }
}

} // verus!

verus! {

/// The combination coordinate of a cubie array over `N` elements whose
/// highest `K` element values are tracked: an integer in `[0, C(N, K))`.
#[derive(Clone, Copy, Debug, Eq, PartialEq)]
pub struct CombinationCoord<const N: usize, const K: usize> {
    value: u16,
}

impl<const N: usize, const K: usize> View for CombinationCoord<N, K> {
    type V = int;

    closed spec fn view(&self) -> int {
        self.value as int
    }
}

impl<const N: usize, const K: usize> CombinationCoord<N, K> {
    /// Well-formedness: the value lies inside the coordinate space.
    pub open spec fn wf(self) -> bool {
        0 <= self@ < binom(N as nat, K as nat)
    }

    /// The number of coordinates in this space, `C(N, K)`.
    pub fn bound() -> (r: usize)
        requires
            1 <= N <= 31,
            K <= N,
        ensures
            r == binom(N as nat, K as nat),
    {
        binomial(N, K)
    }

    /// The coordinate with the given value; `None` when it is out of range.
    pub fn try_from(value: usize) -> (r: Option<Self>)
        requires
            1 <= N <= 31,
            K <= N,
            binom(N as nat, K as nat) <= 0x1_0000,
        ensures
            r is Some <==> value < binom(N as nat, K as nat),
            r is Some ==> r->0@ == value && r->0.wf(),
    {
        if value < Self::bound() {
            Some(CombinationCoord { value: value as u16 })
        } else {
            None
        }
    }

    /// The value as an index.
    pub fn index(self) -> (r: usize)
        ensures
            r == self@,
    {
        self.value as usize
    }

    /// Every coordinate of this space, in increasing order.
    pub fn all() -> (r: Vec<Self>)
        requires
            1 <= N <= 31,
            K <= N,
            binom(N as nat, K as nat) <= 0x1_0000,
        ensures
            r.len() == binom(N as nat, K as nat),
            forall|i: int| 0 <= i < r.len() ==> (#[trigger] r[i])@ == i && r[i].wf(),
    {
        let bound = Self::bound();
        let mut out: Vec<Self> = Vec::new();
        let mut i: usize = 0;
        while i < bound
            invariant
                i <= bound,
                bound == binom(N as nat, K as nat) <= 0x1_0000,
                out.len() == i,
                forall|j: int| 0 <= j < i ==> (#[trigger] out[j])@ == j && out[j].wf(),
            decreases bound - i,
        {
            out.push(CombinationCoord { value: i as u16 });
            i = i + 1;
        }
        out
    }

    /// The canonical cubie array of this coordinate: the highest `K`
    /// element values placed at the ranked positions, all other positions
    /// holding the low values in increasing order, all orientations zero.
    pub fn array<const M: u8>(self) -> (r: Array<N, M>)
        requires
            1 <= N <= 31,
            1 <= K <= N,
            M >= 1,
            self.wf(),
            binom(N as nat, K as nat) <= 0x1_0000,
        ensures
            r.wf(),
            r@.len() == N,
            forall|i: int| 0 <= i < N ==>
                (#[trigger] r@[i]) == (c_dec(self@, (N - 1) as int, K as nat, (N - K) as u8)[i], 0u8),
    {
        let ghost t0 = self@;
        let ghost h = (N - K) as u8;
        let ghost full = c_dec(t0, (N - 1) as int, K as nat, h);
        proof {
            lemma_c_dec_props(t0, (N - 1) as int, K as nat, h);
        }
        let mut pm: Vec<u8> = Vec::new();
        let mut z: usize = 0;
        while z < N
            invariant
                z <= N,
                pm.len() == z,
            decreases N - z,
        {
            pm.push(0);
            z = z + 1;
        }
        let mut t: u16 = self.value;
        let mut r: usize = K;
        let mut ix: usize = N;
        proof {
            assert(full.subrange(0, N as int) =~= full);
        }
        while ix > 0
            invariant
                0 <= ix <= N <= 31,
                K <= N,
                r <= K,
                pm.len() == N,
                h == (N - K) as u8,
                1 <= K,
                0 <= t0 < binom(N as nat, K as nat),
                full == c_dec(t0, (N - 1) as int, K as nat, h),
                full.len() == N,
                0 <= t < binom(ix as nat, r as nat),
                binom(ix as nat, r as nat) <= 0x1_0000,
                ix - r <= N - K,
                c_dec(t as int, ix - 1, r as nat, h) == full.subrange(0, ix as int),
                forall|j: int| ix <= j < N ==> (#[trigger] pm@[j]) == full[j],
            decreases ix,
        {
            ix = ix - 1;
            proof {
                lemma_c_dec_props(t0, (N - 1) as int, K as nat, h);
                lemma_c_dec_props(t as int, ix as int, r as nat, h);
                assert(full.subrange(0, ix + 1).len() == ix + 1);
                if r > ix {
                    lemma_binom_over(ix as nat, r as nat);
                }
                if r >= 1 && r <= ix + 1 {
                    assert(binom((ix + 1) as nat, r as nat)
                        == binom(ix as nat, (r - 1) as nat) + binom(ix as nat, r as nat));
                }
                assert(binom(ix as nat, r as nat) <= 0x1_0000) by {
                    if r >= 1 && r <= ix + 1 {
                    } else if r > ix + 1 {
                        lemma_binom_over(ix as nat, r as nat);
                    }
                }
            }
            let b = binomial(ix, r);
            if t as usize >= b && r >= 1 {
                proof {
                    lemma_c_dec_props((t - b) as int, ix - 1, (r - 1) as nat, h);
                    assert(c_dec(t as int, ix as int, r as nat, h)
                        == c_dec(t - b, ix - 1, (r - 1) as nat, h).push(((N - K) + r - 1) as u8));
                    assert(c_dec(t - b, ix - 1, (r - 1) as nat, h) =~= full.subrange(0, ix as int)) by {
                        assert(c_dec(t as int, ix as int, r as nat, h) == full.subrange(0, ix + 1));
                        assert forall|j: int| 0 <= j < ix implies
                            c_dec(t - b, ix - 1, (r - 1) as nat, h)[j] == full.subrange(0, ix as int)[j] by {
                            assert(full.subrange(0, ix + 1)[j] == full[j]);
                            assert(c_dec(t as int, ix as int, r as nat, h)[j]
                                == c_dec(t - b, ix - 1, (r - 1) as nat, h)[j]);
                        }
                    }
                    assert(full[ix as int] == c_dec(t as int, ix as int, r as nat, h)[ix as int]);
                    lemma_c_dec_props((t - b) as int, ix - 1, (r - 1) as nat, h);
                }
                pm.set(ix, (N - K + r - 1) as u8);
                t = t - b as u16;
                r = r - 1;
            } else {
                proof {
                    if r >= 1 {
                        assert(t < binom(ix as nat, r as nat));
                    } else {
                        assert(binom((ix + 1) as nat, 0) == 1);
                        assert(binom(ix as nat, 0) == 1);
                    }
                    if r > ix {
                        lemma_binom_over(ix as nat, r as nat);
                        assert(false);
                    }
                    lemma_c_dec_props(t as int, ix - 1, r as nat, h);
                    assert(c_dec(t as int, ix as int, r as nat, h)
                        == c_dec(t as int, ix - 1, r as nat, h).push(((ix - r)) as u8));
                    assert(c_dec(t as int, ix - 1, r as nat, h) =~= full.subrange(0, ix as int)) by {
                        assert(c_dec(t as int, ix as int, r as nat, h) == full.subrange(0, ix + 1));
                        assert forall|j: int| 0 <= j < ix implies
                            c_dec(t as int, ix - 1, r as nat, h)[j] == full.subrange(0, ix as int)[j] by {
                            assert(full.subrange(0, ix + 1)[j] == full[j]);
                            assert(c_dec(t as int, ix as int, r as nat, h)[j]
                                == c_dec(t as int, ix - 1, r as nat, h)[j]);
                        }
                    }
                    assert(full[ix as int] == c_dec(t as int, ix as int, r as nat, h)[ix as int]);
                }
                pm.set(ix, (ix - r) as u8);
            }
        }
        let mut pairs: Vec<(u8, u8)> = Vec::new();
        let mut i: usize = 0;
        while i < N
            invariant
                i <= N,
                pm.len() == N,
                pairs.len() == i,
                forall|j: int| 0 <= j < i ==> (#[trigger] pairs@[j]) == (pm@[j], 0u8),
            decreases N - i,
        {
            pairs.push((pm[i], 0));
            i = i + 1;
        }
        proof {
            lemma_c_dec_props(t0, (N - 1) as int, K as nat, h);
            assert(forall|i: int| 0 <= i < N ==> (#[trigger] pairs@[i]).0 == full[i]);
            assert(is_valid(pairs@, N as nat, M));
        }
        Array::new(pairs)
    }
}

impl<const N: usize, const M: u8> Array<N, M> {
    /// The combination coordinate of this array over its `K` highest
    /// element values.
    pub fn c_coordinate<const K: usize>(&self) -> (r: CombinationCoord<N, K>)
        requires
            self.wf(),
            1 <= N <= 31,
            1 <= K <= N,
            binom(N as nat, K as nat) <= 0x1_0000,
        ensures
            r@ == c_val(self@, N as nat, K as nat),
            r.wf(),
    {
        let mut t: u16 = 0;
        let mut r: usize = K;
        let mut ix: usize = N;
        proof {
            assert(c_val(self@, N as nat, K as nat)
                == c_val_from(self@, N - 1, K as nat, (N - K) as u8));
            lemma_c_val_from_bound(self@, N - 1, K as nat, (N - K) as u8);
        }
        while ix > 0
            invariant
                0 <= ix <= N <= 31,
                1 <= K <= N,
                r <= K,
                self.wf(),
                binom(N as nat, K as nat) <= 0x1_0000,
                t + c_val_from(self@, ix - 1, r as nat, (N - K) as u8)
                    == c_val(self@, N as nat, K as nat),
                t >= 0,
                c_val_from(self@, ix - 1, r as nat, (N - K) as u8) >= 0,
            decreases ix,
        {
            ix = ix - 1;
            proof {
                lemma_c_val_from_bound(self@, ix as int, r as nat, (N - K) as u8);
                lemma_c_val_from_bound(self@, ix - 1, r as nat, (N - K) as u8);
                if r >= 1 {
                    lemma_c_val_from_bound(self@, ix - 1, (r - 1) as nat, (N - K) as u8);
                }
                lemma_c_val_from_bound(self@, (N - 1) as int, K as nat, (N - K) as u8);
                lemma_binom_le_pow2(ix as nat, r as nat);
                lemma_pow_monotone(2, ix as nat, 31);
                reveal_with_fuel(pow, 32);
            }
            if self.pairs[ix].0 as usize >= N - K && r >= 1 {
                let b = binomial(ix, r) as u16;
                t = t + b;
                r = r - 1;
            }
        }
        proof {
            lemma_c_val_from_bound(self@, (N - 1) as int, K as nat, (N - K) as u8);
            lemma_binom_positive(N as nat, K as nat);
        }
        CombinationCoord { value: t }
    }
}

} // verus!

verus! {

/// The full coordinate of a cubie array: orientation and permutation parts.
#[derive(Clone, Copy, Debug, Default, Eq, PartialEq)]
pub struct Coordinate<const N: usize, const M: u8>(
    pub OrientationCoord<N, M>,
    pub PermutationCoord<N>,
);

impl<const N: usize, const M: u8> Coordinate<N, M> {
    /// Well-formedness of both parts.
    pub open spec fn wf(self) -> bool {
        self.0.wf() && self.1.wf()
    }

    /// The flat index of this pair, permutation part major.
    pub fn index(self) -> (r: usize)
        requires
            1 <= N <= 12,
            M >= 1,
            self.wf(),
            fact(N as nat) * pow(M as nat, (N - 1) as nat) <= 0xffff_ffff,
        ensures
            r == self.1@ * pow(M as nat, (N - 1) as nat) + self.0@,
    {
        proof {
            let p = pow(M as nat, (N - 1) as nat) as int;
            let f = fact(N as nat) as int;
            assert((self.1@ + 1) * p <= f * p) by (nonlinear_arith)
                requires self.1@ + 1 <= f, p >= 0;
            assert((self.1@ + 1) * p == self.1@ * p + p) by (nonlinear_arith);
            assert(self.1@ * p >= 0) by (nonlinear_arith)
                requires self.1@ >= 0, p >= 0;
            lemma_pow_positive(M as nat, (N - 1) as nat);
        }
        self.1.index() * if N == 1 { 1 } else { crate::util::power(M, N - 1) } + self.0.index()
    }

    /// The coordinate pair with the given flat index, permutation part
    /// major; `None` when the index is out of range.
    pub fn try_from(value: usize) -> (r: Option<Self>)
        requires
            1 <= N <= 12,
            M >= 1,
            pow(M as nat, (N - 1) as nat) <= 0x1_0000,
            fact(N as nat) * pow(M as nat, (N - 1) as nat) <= 0xffff_ffff,
        ensures
            r is Some <==> value < pow(M as nat, (N - 1) as nat) * fact(N as nat),
            r is Some ==> ({
                let c = r->0;
                c.wf() && c.1@ * pow(M as nat, (N - 1) as nat) + c.0@ == value
            }),
    {
        proof {
            lemma_fact_12();
            lemma_fact_monotone(N as nat, 12);
            lemma_pow_positive(M as nat, (N - 1) as nat);
            crate::util::lemma_fact_monotone(0, N as nat);
            assert(fact(N as nat) * pow(M as nat, (N - 1) as nat)
                == pow(M as nat, (N - 1) as nat) * fact(N as nat)) by (nonlinear_arith);
        }
        let pw = if N == 1 { 1 } else { crate::util::power(M, N - 1) };
        let bound = pw * crate::util::factorial(N);
        if value < bound {
            let o = value % pw;
            let p = value / pw;
            proof {
                vstd::arithmetic::div_mod::lemma_mod_bound(value as int, pw as int);
                vstd::arithmetic::div_mod::lemma_fundamental_div_mod(value as int, pw as int);
                vstd::arithmetic::div_mod::lemma_div_pos_is_pos(value as int, pw as int);
                assert(p < fact(N as nat)) by (nonlinear_arith)
                    requires
                        value < pw * fact(N as nat),
                        value == pw * (value as int / pw as int) + value as int % pw as int,
                        p == value as int / pw as int,
                        0 <= value as int % pw as int,
                        pw >= 1;
                assert(p * pw + o == value) by (nonlinear_arith)
                    requires
                        value == pw * (value as int / pw as int) + value as int % pw as int,
                        p == value as int / pw as int,
                        o == value as int % pw as int;
            }
            Some(Coordinate(
                OrientationCoord::from_index(o),
                PermutationCoord::from_index(p),
            ))
        } else {
            None
        }
    }

    /// Every coordinate pair, orientation part minor within each
    /// permutation-major block; the order groups the orientation spaces of
    /// one permutation together.
    pub fn all() -> (r: Vec<Self>)
        requires
            1 <= N <= 12,
            M >= 1,
            pow(M as nat, (N - 1) as nat) <= 0x1_0000,
        ensures
            r.len() == pow(M as nat, (N - 1) as nat) * fact(N as nat),
            forall|i: int| 0 <= i < r.len() ==> (#[trigger] r[i]).wf(),
            forall|i: int| 0 <= i < r.len() ==>
                (#[trigger] r[i]).0@ * fact(N as nat) + r[i].1@ == i,
    {
        let os = OrientationCoord::<N, M>::all();
        let ps = PermutationCoord::<N>::all();
        let mut out: Vec<Self> = Vec::new();
        let mut i: usize = 0;
        proof {
            lemma_fact_12();
            lemma_fact_monotone(N as nat, 12);
            lemma_pow_positive(M as nat, (N - 1) as nat);
        }
        while i < os.len()
            invariant
                i <= os.len(),
                os.len() == pow(M as nat, (N - 1) as nat) <= 0x1_0000,
                ps.len() == fact(N as nat) <= 479001600,
                forall|l: int| 0 <= l < os.len() ==> (#[trigger] os[l])@ == l && os[l].wf(),
                forall|l: int| 0 <= l < ps.len() ==> (#[trigger] ps[l])@ == l && ps[l].wf(),
                out.len() == i * fact(N as nat),
                forall|l: int| 0 <= l < out.len() ==> (#[trigger] out[l]).wf(),
                forall|l: int| 0 <= l < out.len() ==>
                    (#[trigger] out[l]).0@ * fact(N as nat) + out[l].1@ == l,
            decreases os.len() - i,
        {
            let mut j: usize = 0;
            proof {
                assert(i * fact(N as nat) + fact(N as nat) == (i + 1) * fact(N as nat))
                    by (nonlinear_arith);
                assert((i + 1) * fact(N as nat) <= 0x1_0000 * 479001600int) by (nonlinear_arith)
                    requires i + 1 <= 0x1_0000, fact(N as nat) <= 479001600;
            }
            while j < ps.len()
                invariant
                    j <= ps.len(),
                    i < os.len(),
                    os.len() == pow(M as nat, (N - 1) as nat) <= 0x1_0000,
                    ps.len() == fact(N as nat) <= 479001600,
                    forall|l: int| 0 <= l < os.len() ==> (#[trigger] os[l])@ == l && os[l].wf(),
                    forall|l: int| 0 <= l < ps.len() ==> (#[trigger] ps[l])@ == l && ps[l].wf(),
                    out.len() == i * fact(N as nat) + j,
                    out.len() <= 0x1_0000 * 479001600int,
                    forall|l: int| 0 <= l < out.len() ==> (#[trigger] out[l]).wf(),
                    forall|l: int| 0 <= l < out.len() ==>
                        (#[trigger] out[l]).0@ * fact(N as nat) + out[l].1@ == l,
                decreases ps.len() - j,
            {
                proof {
                    assert(i * fact(N as nat) + j + 1 <= 0x1_0000 * 479001600int)
                        by (nonlinear_arith)
                        requires
                            0 <= j < fact(N as nat) <= 479001600,
                            0 <= i,
                            i + 1 <= 0x1_0000;
                }
                out.push(Coordinate(os[i], ps[j]));
                j = j + 1;
            }
            i = i + 1;
            proof {
                assert((i - 1) * fact(N as nat) + fact(N as nat) == i * fact(N as nat))
                    by (nonlinear_arith);
            }
        }
        proof {
            assert(os.len() * fact(N as nat) == pow(M as nat, (N - 1) as nat) * fact(N as nat));
        }
        out
    }

    /// The canonical cubie array carrying both parts: the decoded
    /// permutation with the decoded orientations laid over it.
    pub fn array(self) -> (r: Array<N, M>)
        requires
            1 <= N <= 12,
            M >= 1,
            self.wf(),
            pow(M as nat, (N - 1) as nat) <= 0x1_0000,
        ensures
            r.wf(),
            o_val(r@, M) == self.0@,
            o_sum(r@) % (M as int) == 0,
            forall|i: int| 0 <= i < N ==> (#[trigger] r@[i]).0 == p_dec(self.1@, N as nat)[i],
    {
        let o_arr = self.0.array();
        let p_arr = self.1.array::<M>();
        let mut pairs: Vec<(u8, u8)> = Vec::new();
        let mut i: usize = 0;
        while i < N
            invariant
                i <= N,
                o_arr@.len() == N,
                p_arr@.len() == N,
                pairs.len() == i,
                forall|j: int| 0 <= j < i ==>
                    (#[trigger] pairs@[j]) == (p_arr@[j].0, o_arr@[j].1),
            decreases N - i,
        {
            pairs.push((p_arr.pairs[i].0, o_arr.pairs[i].1));
            i = i + 1;
        }
        proof {
            assert(is_valid(pairs@, N as nat, M));
            lemma_o_val_prefix_congruence(pairs@, o_arr@, (N - 1) as int, M);
            lemma_o_sum_is_prefix(pairs@);
            lemma_o_sum_is_prefix(o_arr@);
            lemma_ori_sum_prefix_congruence(pairs@, o_arr@, N as int);
        }
        Array::new(pairs)
    }
}

impl<const N: usize, const M: u8> Array<N, M> {
    /// Both coordinates of this array.
    pub fn coordinate(&self) -> (r: Coordinate<N, M>)
        requires
            self.wf(),
            1 <= N <= 12,
            M >= 1,
            pow(M as nat, (N - 1) as nat) <= 0x1_0000,
        ensures
            r.0@ == o_val(self@, M),
            r.1@ == lehmer(self@),
            r.wf(),
    {
        Coordinate(self.o_coordinate(), self.p_coordinate())
    }

    /// The first `T` entries as an array of their own; fails when an
    /// element from the dropped tail sits among them.
    pub fn truncate<const T: usize>(&self) -> (r: Result<Array<T, M>, CreationError>)
        requires
            self.wf(),
            T <= N,
        ensures
            r is Ok <==> (forall|i: int| 0 <= i < T ==> (#[trigger] self@[i]).0 < T),
            r is Ok ==> r->Ok_0@ == self@.subrange(0, T as int) && r->Ok_0.wf(),
            r is Err ==> r == Err::<Array<T, M>, CreationError>(CreationError::InvalidPermutation),
    {
        let mut pairs: Vec<(u8, u8)> = Vec::new();
        let mut i: usize = 0;
        while i < T
            invariant
                i <= T <= N,
                self.wf(),
                pairs.len() == i,
                forall|j: int| 0 <= j < i ==> (#[trigger] self@[j]).0 < T,
                forall|j: int| 0 <= j < i ==> (#[trigger] pairs@[j]) == self@[j],
            decreases T - i,
        {
            let (e, o) = self.pairs[i];
            if e as usize >= T {
                return Err(CreationError::InvalidPermutation);
            }
            pairs.push((e, o));
            i = i + 1;
        }
        proof {
            assert(pairs@ =~= self@.subrange(0, T as int));
            assert(is_valid(pairs@, T as nat, M));
        }
        Ok(Array { pairs })
    }

    /// The last `D` entries as an array of their own, element values
    /// shifted down to `0 .. D`; fails when an element from the kept head
    /// sits among them.
    pub fn drop<const D: usize>(&self) -> (r: Result<Array<D, M>, CreationError>)
        requires
            self.wf(),
            D <= N,
        ensures
            r is Ok <==> (forall|i: int| N - D <= i < N ==> (#[trigger] self@[i]).0 >= N - D),
            r is Ok ==> {
                &&& r->Ok_0@.len() == D
                &&& forall|i: int| 0 <= i < D ==> (#[trigger] r->Ok_0@[i])
                    == (((self@[N - D + i].0 - (N - D)) as u8), self@[N - D + i].1)
                &&& r->Ok_0.wf()
            },
            r is Err ==> r == Err::<Array<D, M>, CreationError>(CreationError::InvalidPermutation),
    {
        let mut pairs: Vec<(u8, u8)> = Vec::new();
        let mut i: usize = N - D;
        while i < N
            invariant
                N - D <= i <= N,
                self.wf(),
                D <= N,
                pairs.len() == i - (N - D),
                forall|j: int| N - D <= j < i ==> (#[trigger] self@[j]).0 >= N - D,
                forall|j: int| 0 <= j < i - (N - D) ==> (#[trigger] pairs@[j])
                    == (((self@[N - D + j].0 - (N - D)) as u8), self@[N - D + j].1),
            decreases N - i,
        {
            let (e, o) = self.pairs[i];
            if (e as usize) < N - D {
                return Err(CreationError::InvalidPermutation);
            }
            pairs.push((e - (N - D) as u8, o));
            i = i + 1;
        }
        proof {
            assert(is_valid(pairs@, D as nat, M));
        }
        Ok(Array { pairs })
    }
}

} // verus!

verus! {

/// The canonical cubie array of orientation coordinate `t`: the identity
/// permutation carrying the decoded base-`m` digits, the last entry
/// completing the orientation sum to zero modulo `m`.
pub open spec fn o_canon(t: int, n: nat, m: u8) -> Seq<(u8, u8)> {
    Seq::new(n, |i: int| (
        #[verifier::truncate] (i as u8),
        if i < n - 1 {
            o_dec(t, (n - 1) as nat, m)[i]
        } else {
            #[verifier::truncate]
            ((((m as int) - digit_sum(o_dec(t, (n - 1) as nat, m)) % (m as int)) % (m as int)) as u8)
        },
    ))
}

/// The canonical cubie array of permutation coordinate `t`: the decoded
/// permutation with zero orientations.
pub open spec fn p_canon(t: int, n: nat) -> Seq<(u8, u8)> {
    Seq::new(n, |i: int| (p_dec(t, n)[i], 0u8))
}

/// The canonical cubie array of combination coordinate `t`: the decoded
/// arrangement with zero orientations.
pub open spec fn c_canon(t: int, n: nat, k: nat) -> Seq<(u8, u8)> {
    Seq::new(n, |i: int| (c_dec(t, n - 1, k, #[verifier::truncate] ((n - k) as u8))[i], 0u8))
}

/// Matching digits give matching sums.
pub proof fn lemma_digit_sum_matches(p: Seq<(u8, u8)>, d: Seq<u8>, k: int)
    requires
        0 <= k <= p.len(),
        d.len() == k,
        forall|i: int| 0 <= i < k ==> (#[trigger] p[i]).1 == d[i],
    ensures
        digit_sum(d) == ori_sum_prefix(p, k),
    decreases k,
{
    if k > 0 {
        lemma_digit_sum_matches(p, d.drop_last(), k - 1);
        assert(d.last() == p[k - 1].1);
    }
}

} // verus!

verus! {

impl<const N: usize, const M: u8> OrientationCoord<N, M> {
    /// The coordinate with the given in-range value.
    pub fn from_index(value: usize) -> (r: Self)
        requires
            0 <= value < pow(M as nat, (N - 1) as nat),
            pow(M as nat, (N - 1) as nat) <= 0x1_0000,
        ensures
            r@ == value,
            r.wf(),
    {
        OrientationCoord { value: value as u16 }
    }
}

impl<const N: usize> PermutationCoord<N> {
    /// The coordinate with the given in-range value.
    pub fn from_index(value: usize) -> (r: Self)
        requires
            0 <= value < fact(N as nat),
            fact(N as nat) <= 0xffff_ffff,
        ensures
            r@ == value,
            r.wf(),
    {
        PermutationCoord { value: value as u32 }
    }
}

impl<const N: usize, const K: usize> CombinationCoord<N, K> {
    /// The coordinate with the given in-range value.
    pub fn from_index(value: usize) -> (r: Self)
        requires
            0 <= value < binom(N as nat, K as nat),
            binom(N as nat, K as nat) <= 0x1_0000,
        ensures
            r@ == value,
            r.wf(),
    {
        CombinationCoord { value: value as u16 }
    }
}

/// Orientation coordinates with one value are one coordinate.
pub proof fn lemma_o_coord_eq<const N: usize, const M: u8>(
    a: OrientationCoord<N, M>,
    b: OrientationCoord<N, M>,
)
    requires
        a@ == b@,
    ensures
        a == b,
{
}

/// Permutation coordinates with one value are one coordinate.
pub proof fn lemma_p_coord_eq<const N: usize>(a: PermutationCoord<N>, b: PermutationCoord<N>)
    requires
        a@ == b@,
    ensures
        a == b,
{
}

/// Combination coordinates with one value are one coordinate.
pub proof fn lemma_c_coord_eq<const N: usize, const K: usize>(
    a: CombinationCoord<N, K>,
    b: CombinationCoord<N, K>,
)
    requires
        a@ == b@,
    ensures
        a == b,
{
}

impl<const N: usize, const K: usize> Default for CombinationCoord<N, K> {
    /// The coordinate of the arrangement whose high elements sit at the top
    /// positions: the largest value of the space.
    fn default() -> (r: Self)
        ensures
            1 <= N <= 31 && 1 <= K <= N && binom(N as nat, K as nat) <= 0x1_0000
                ==> r@ == binom(N as nat, K as nat) - 1 && r.wf(),
    {
        if 1 <= N && N <= 31 && 1 <= K && K <= N {
            proof {
                lemma_binom_le_pow2(N as nat, K as nat);
                lemma_binom_positive(N as nat, K as nat);
            }
            let b = binomial(N, K);
            if b <= 0x1_0000 {
                CombinationCoord { value: (b - 1) as u16 }
            } else {
                CombinationCoord { value: 0 }
            }
        } else {
            CombinationCoord { value: 0 }
        }
    }
}

} // verus!

verus! {

/// The orientation coordinate holding value `v`, at the specification level.
pub closed spec fn o_coord_spec<const N: usize, const M: u8>(v: int) -> OrientationCoord<N, M> {
    OrientationCoord { value: v as u16 }
}

/// The permutation coordinate holding value `v`, at the specification level.
pub closed spec fn p_coord_spec<const N: usize>(v: int) -> PermutationCoord<N> {
    PermutationCoord { value: v as u32 }
}

/// The combination coordinate holding value `v`, at the specification level.
pub closed spec fn c_coord_spec<const N: usize, const K: usize>(v: int) -> CombinationCoord<N, K> {
    CombinationCoord { value: v as u16 }
}

/// An in-range value reads back from the coordinate that holds it.
pub proof fn lemma_o_coord_spec_view<const N: usize, const M: u8>(v: int)
    requires
        0 <= v < 0x1_0000,
    ensures
        o_coord_spec::<N, M>(v)@ == v,
{
}

/// An in-range value reads back from the coordinate that holds it.
pub proof fn lemma_p_coord_spec_view<const N: usize>(v: int)
    requires
        0 <= v < 0x1_0000_0000,
    ensures
        p_coord_spec::<N>(v)@ == v,
{
}

/// An in-range value reads back from the coordinate that holds it.
pub proof fn lemma_c_coord_spec_view<const N: usize, const K: usize>(v: int)
    requires
        0 <= v < 0x1_0000,
    ensures
        c_coord_spec::<N, K>(v)@ == v,
{
}

} // verus!

verus! {

impl<const N: usize, const M: u8> Array<N, M> {
    /// A copy of this array with the same contents.
    pub fn duplicate(&self) -> (r: Self)
        ensures
            r@ == self@,
    {
        let mut pairs: Vec<(u8, u8)> = Vec::new();
        let mut i: usize = 0;
        while i < self.pairs.len()
            invariant
                i <= self@.len(),
                pairs@.len() == i,
                forall|j: int| 0 <= j < i ==> (#[trigger] pairs@[j]) == self@[j],
            decreases self@.len() - i,
        {
            pairs.push(self.pairs[i]);
            i = i + 1;
        }
        let r = Array { pairs };
        proof {
            assert(r@ =~= self@);
        }
        r
    }
}

impl<const N: usize, const M: u8> Default for Array<N, M> {
    /// The identity cubie array.
    fn default() -> (r: Self)
        ensures
            N <= 256 && M >= 1 ==> r@ == id_seq(N as nat) && r.wf(),
    {
        if N <= 256 && M >= 1 {
            Self::identity()
        } else {
            Array { pairs: Vec::new() }
        }
    }
}

} // verus!
