use vstd::prelude::*;

verus! {

use crate::definitions::{compose, id_seq, is_valid, oris_below};
use crate::metric::{corner_move_seq, edge_move_seq};

/// The index of the face turn that undoes the face turn with index `ix`:
/// quarter turns pair with their inverse quarter turns, half turns with
/// themselves.
pub open spec fn inverse_index(ix: int) -> int {
    if ix % 3 == 0 {
        ix + 2
    } else if ix % 3 == 1 {
        ix
    } else {
        ix - 2
    }
}

/// Composing any valid cubie array with the identity returns it unchanged.
pub proof fn lemma_compose_identity_right(a: Seq<(u8, u8)>, n: nat, m: u8)
    requires
        is_valid(a, n, m),
        n <= 256,
        m >= 1,
    ensures
        compose(a, id_seq(n), m) == a,
{
    assert forall|i: int| 0 <= i < a.len()
        implies compose(a, id_seq(n), m)[i] == a[i] by {
        assert(id_seq(n)[i] == (i as u8, 0u8));
        vstd::arithmetic::div_mod::lemma_small_mod(a[i].1 as nat, m as nat);
    }
    assert(compose(a, id_seq(n), m) =~= a);
}

/// Every face turn cancels against its indexed inverse, on corners and on
/// edges alike.
pub proof fn lemma_generator_cancellation(ix: int)
    requires
        0 <= ix < 18,
    ensures
        compose(corner_move_seq(ix), corner_move_seq(inverse_index(ix)), 3) == id_seq(8),
        compose(edge_move_seq(ix), edge_move_seq(inverse_index(ix)), 2) == id_seq(12),
{
    if ix == 0 {
        assert(compose(corner_move_seq(0), corner_move_seq(2), 3) =~= id_seq(8));
        assert(compose(edge_move_seq(0), edge_move_seq(2), 2) =~= id_seq(12));
    }
    if ix == 1 {
        assert(compose(corner_move_seq(1), corner_move_seq(1), 3) =~= id_seq(8));
        assert(compose(edge_move_seq(1), edge_move_seq(1), 2) =~= id_seq(12));
    }
    if ix == 2 {
        assert(compose(corner_move_seq(2), corner_move_seq(0), 3) =~= id_seq(8));
        assert(compose(edge_move_seq(2), edge_move_seq(0), 2) =~= id_seq(12));
    }
    if ix == 3 {
        assert(compose(corner_move_seq(3), corner_move_seq(5), 3) =~= id_seq(8));
        assert(compose(edge_move_seq(3), edge_move_seq(5), 2) =~= id_seq(12));
    }
    if ix == 4 {
        assert(compose(corner_move_seq(4), corner_move_seq(4), 3) =~= id_seq(8));
        assert(compose(edge_move_seq(4), edge_move_seq(4), 2) =~= id_seq(12));
    }
    if ix == 5 {
        assert(compose(corner_move_seq(5), corner_move_seq(3), 3) =~= id_seq(8));
        assert(compose(edge_move_seq(5), edge_move_seq(3), 2) =~= id_seq(12));
    }
    if ix == 6 {
        assert(compose(corner_move_seq(6), corner_move_seq(8), 3) =~= id_seq(8));
        assert(compose(edge_move_seq(6), edge_move_seq(8), 2) =~= id_seq(12));
    }
    if ix == 7 {
        assert(compose(corner_move_seq(7), corner_move_seq(7), 3) =~= id_seq(8));
        assert(compose(edge_move_seq(7), edge_move_seq(7), 2) =~= id_seq(12));
    }
    if ix == 8 {
        assert(compose(corner_move_seq(8), corner_move_seq(6), 3) =~= id_seq(8));
        assert(compose(edge_move_seq(8), edge_move_seq(6), 2) =~= id_seq(12));
    }
    if ix == 9 {
        assert(compose(corner_move_seq(9), corner_move_seq(11), 3) =~= id_seq(8));
        assert(compose(edge_move_seq(9), edge_move_seq(11), 2) =~= id_seq(12));
    }
    if ix == 10 {
        assert(compose(corner_move_seq(10), corner_move_seq(10), 3) =~= id_seq(8));
        assert(compose(edge_move_seq(10), edge_move_seq(10), 2) =~= id_seq(12));
    }
    if ix == 11 {
        assert(compose(corner_move_seq(11), corner_move_seq(9), 3) =~= id_seq(8));
        assert(compose(edge_move_seq(11), edge_move_seq(9), 2) =~= id_seq(12));
    }
    if ix == 12 {
        assert(compose(corner_move_seq(12), corner_move_seq(14), 3) =~= id_seq(8));
        assert(compose(edge_move_seq(12), edge_move_seq(14), 2) =~= id_seq(12));
    }
    if ix == 13 {
        assert(compose(corner_move_seq(13), corner_move_seq(13), 3) =~= id_seq(8));
        assert(compose(edge_move_seq(13), edge_move_seq(13), 2) =~= id_seq(12));
    }
    if ix == 14 {
        assert(compose(corner_move_seq(14), corner_move_seq(12), 3) =~= id_seq(8));
        assert(compose(edge_move_seq(14), edge_move_seq(12), 2) =~= id_seq(12));
    }
    if ix == 15 {
        assert(compose(corner_move_seq(15), corner_move_seq(17), 3) =~= id_seq(8));
        assert(compose(edge_move_seq(15), edge_move_seq(17), 2) =~= id_seq(12));
    }
    if ix == 16 {
        assert(compose(corner_move_seq(16), corner_move_seq(16), 3) =~= id_seq(8));
        assert(compose(edge_move_seq(16), edge_move_seq(16), 2) =~= id_seq(12));
    }
    if ix == 17 {
        assert(compose(corner_move_seq(17), corner_move_seq(15), 3) =~= id_seq(8));
        assert(compose(edge_move_seq(17), edge_move_seq(15), 2) =~= id_seq(12));
    }
}

/// Applying a face turn and then its indexed inverse restores every valid
/// cubie array: corners and edges alike.
pub proof fn lemma_move_cancellation(corners: Seq<(u8, u8)>, edges: Seq<(u8, u8)>, ix: int)
    requires
        is_valid(corners, 8, 3),
        is_valid(edges, 12, 2),
        0 <= ix < 18,
    ensures
        compose(corners, compose(corner_move_seq(ix), corner_move_seq(inverse_index(ix)), 3), 3)
            == corners,
        compose(edges, compose(edge_move_seq(ix), edge_move_seq(inverse_index(ix)), 2), 2)
            == edges,
{
    lemma_generator_cancellation(ix);
    lemma_compose_identity_right(corners, 8, 3);
    lemma_compose_identity_right(edges, 12, 2);
}

/// Every face turn applied four times returns to the identity, on corners
/// and on edges alike.
#[verifier::rlimit(100)]
pub proof fn lemma_generator_order_four(ix: int)
    requires
        0 <= ix < 18,
    ensures
        compose(corner_move_seq(ix), compose(corner_move_seq(ix),
            compose(corner_move_seq(ix), corner_move_seq(ix), 3), 3), 3) == id_seq(8),
        compose(edge_move_seq(ix), compose(edge_move_seq(ix),
            compose(edge_move_seq(ix), edge_move_seq(ix), 2), 2), 2) == id_seq(12),
{
    if ix == 0 {
        let c = corner_move_seq(0);
        let c2 = compose(c, c, 3);
        let c3 = compose(c, c2, 3);
        assert(compose(c, c3, 3) =~= id_seq(8));
        let e = edge_move_seq(0);
        let e2 = compose(e, e, 2);
        let e3 = compose(e, e2, 2);
        assert(compose(e, e3, 2) =~= id_seq(12));
    }
    if ix == 1 {
        let c = corner_move_seq(1);
        let c2 = compose(c, c, 3);
        let c3 = compose(c, c2, 3);
        assert(compose(c, c3, 3) =~= id_seq(8));
        let e = edge_move_seq(1);
        let e2 = compose(e, e, 2);
        let e3 = compose(e, e2, 2);
        assert(compose(e, e3, 2) =~= id_seq(12));
    }
    if ix == 2 {
        let c = corner_move_seq(2);
        let c2 = compose(c, c, 3);
        let c3 = compose(c, c2, 3);
        assert(compose(c, c3, 3) =~= id_seq(8));
        let e = edge_move_seq(2);
        let e2 = compose(e, e, 2);
        let e3 = compose(e, e2, 2);
        assert(compose(e, e3, 2) =~= id_seq(12));
    }
    if ix == 3 {
        let c = corner_move_seq(3);
        let c2 = compose(c, c, 3);
        let c3 = compose(c, c2, 3);
        assert(compose(c, c3, 3) =~= id_seq(8));
        let e = edge_move_seq(3);
        let e2 = compose(e, e, 2);
        let e3 = compose(e, e2, 2);
        assert(compose(e, e3, 2) =~= id_seq(12));
    }
    if ix == 4 {
        let c = corner_move_seq(4);
        let c2 = compose(c, c, 3);
        let c3 = compose(c, c2, 3);
        assert(compose(c, c3, 3) =~= id_seq(8));
        let e = edge_move_seq(4);
        let e2 = compose(e, e, 2);
        let e3 = compose(e, e2, 2);
        assert(compose(e, e3, 2) =~= id_seq(12));
    }
    if ix == 5 {
        let c = corner_move_seq(5);
        let c2 = compose(c, c, 3);
        let c3 = compose(c, c2, 3);
        assert(compose(c, c3, 3) =~= id_seq(8));
        let e = edge_move_seq(5);
        let e2 = compose(e, e, 2);
        let e3 = compose(e, e2, 2);
        assert(compose(e, e3, 2) =~= id_seq(12));
    }
    if ix == 6 {
        let c = corner_move_seq(6);
        let c2 = compose(c, c, 3);
        let c3 = compose(c, c2, 3);
        assert(compose(c, c3, 3) =~= id_seq(8));
        let e = edge_move_seq(6);
        let e2 = compose(e, e, 2);
        let e3 = compose(e, e2, 2);
        assert(compose(e, e3, 2) =~= id_seq(12));
    }
    if ix == 7 {
        let c = corner_move_seq(7);
        let c2 = compose(c, c, 3);
        let c3 = compose(c, c2, 3);
        assert(compose(c, c3, 3) =~= id_seq(8));
        let e = edge_move_seq(7);
        let e2 = compose(e, e, 2);
        let e3 = compose(e, e2, 2);
        assert(compose(e, e3, 2) =~= id_seq(12));
    }
    if ix == 8 {
        let c = corner_move_seq(8);
        let c2 = compose(c, c, 3);
        let c3 = compose(c, c2, 3);
        assert(compose(c, c3, 3) =~= id_seq(8));
        let e = edge_move_seq(8);
        let e2 = compose(e, e, 2);
        let e3 = compose(e, e2, 2);
        assert(compose(e, e3, 2) =~= id_seq(12));
    }
    if ix == 9 {
        let c = corner_move_seq(9);
        let c2 = compose(c, c, 3);
        let c3 = compose(c, c2, 3);
        assert(compose(c, c3, 3) =~= id_seq(8));
        let e = edge_move_seq(9);
        let e2 = compose(e, e, 2);
        let e3 = compose(e, e2, 2);
        assert(compose(e, e3, 2) =~= id_seq(12));
    }
    if ix == 10 {
        let c = corner_move_seq(10);
        let c2 = compose(c, c, 3);
        let c3 = compose(c, c2, 3);
        assert(compose(c, c3, 3) =~= id_seq(8));
        let e = edge_move_seq(10);
        let e2 = compose(e, e, 2);
        let e3 = compose(e, e2, 2);
        assert(compose(e, e3, 2) =~= id_seq(12));
    }
    if ix == 11 {
        let c = corner_move_seq(11);
        let c2 = compose(c, c, 3);
        let c3 = compose(c, c2, 3);
        assert(compose(c, c3, 3) =~= id_seq(8));
        let e = edge_move_seq(11);
        let e2 = compose(e, e, 2);
        let e3 = compose(e, e2, 2);
        assert(compose(e, e3, 2) =~= id_seq(12));
    }
    if ix == 12 {
        let c = corner_move_seq(12);
        let c2 = compose(c, c, 3);
        let c3 = compose(c, c2, 3);
        assert(compose(c, c3, 3) =~= id_seq(8));
        let e = edge_move_seq(12);
        let e2 = compose(e, e, 2);
        let e3 = compose(e, e2, 2);
        assert(compose(e, e3, 2) =~= id_seq(12));
    }
    if ix == 13 {
        let c = corner_move_seq(13);
        let c2 = compose(c, c, 3);
        let c3 = compose(c, c2, 3);
        assert(compose(c, c3, 3) =~= id_seq(8));
        let e = edge_move_seq(13);
        let e2 = compose(e, e, 2);
        let e3 = compose(e, e2, 2);
        assert(compose(e, e3, 2) =~= id_seq(12));
    }
    if ix == 14 {
        let c = corner_move_seq(14);
        let c2 = compose(c, c, 3);
        let c3 = compose(c, c2, 3);
        assert(compose(c, c3, 3) =~= id_seq(8));
        let e = edge_move_seq(14);
        let e2 = compose(e, e, 2);
        let e3 = compose(e, e2, 2);
        assert(compose(e, e3, 2) =~= id_seq(12));
    }
    if ix == 15 {
        let c = corner_move_seq(15);
        let c2 = compose(c, c, 3);
        let c3 = compose(c, c2, 3);
        assert(compose(c, c3, 3) =~= id_seq(8));
        let e = edge_move_seq(15);
        let e2 = compose(e, e, 2);
        let e3 = compose(e, e2, 2);
        assert(compose(e, e3, 2) =~= id_seq(12));
    }
    if ix == 16 {
        let c = corner_move_seq(16);
        let c2 = compose(c, c, 3);
        let c3 = compose(c, c2, 3);
        assert(compose(c, c3, 3) =~= id_seq(8));
        let e = edge_move_seq(16);
        let e2 = compose(e, e, 2);
        let e3 = compose(e, e2, 2);
        assert(compose(e, e3, 2) =~= id_seq(12));
    }
    if ix == 17 {
        let c = corner_move_seq(17);
        let c2 = compose(c, c, 3);
        let c3 = compose(c, c2, 3);
        assert(compose(c, c3, 3) =~= id_seq(8));
        let e = edge_move_seq(17);
        let e2 = compose(e, e, 2);
        let e3 = compose(e, e2, 2);
        assert(compose(e, e3, 2) =~= id_seq(12));
    }
}

} // verus!

verus! {

use crate::definitions::{o_sum, is_perm};
use vstd::set_lib::{lemma_subset_equality, lemma_int_range, set_int_range};

/// The element values of the first `k` positions of `s`.
pub open spec fn values_upto(s: Seq<(u8, u8)>, k: int) -> Set<int> {
    Set::new(|v: int| exists|i: int| 0 <= i < k && (#[trigger] s[i]).0 == v)
}

/// A prefix of distinct values has as many values as positions.
pub proof fn lemma_values_upto_len(s: Seq<(u8, u8)>, k: int)
    requires
        0 <= k <= s.len(),
        forall|i: int, j: int| 0 <= i < j < s.len() ==> s[i].0 != s[j].0,
    ensures
        values_upto(s, k).finite(),
        values_upto(s, k).len() == k,
    decreases k,
{
    if k == 0 {
        assert(values_upto(s, 0) =~= Set::<int>::empty());
    } else {
        lemma_values_upto_len(s, k - 1);
        assert(values_upto(s, k) =~= values_upto(s, k - 1).insert(s[k - 1].0 as int));
        assert(!values_upto(s, k - 1).contains(s[k - 1].0 as int));
    }
}

/// A permutation of `0 .. n` takes every value below `n` somewhere.
pub proof fn lemma_perm_surjective(s: Seq<(u8, u8)>, n: nat, v: int)
    requires
        is_perm(s, n),
        0 <= v < n,
    ensures
        exists|i: int| 0 <= i < n && (#[trigger] s[i]).0 == v,
{
    lemma_values_upto_len(s, n as int);
    lemma_int_range(0, n as int);
    assert(values_upto(s, n as int) <= set_int_range(0, n as int));
    lemma_subset_equality(values_upto(s, n as int), set_int_range(0, n as int));
    assert(set_int_range(0, n as int).contains(v));
    assert(values_upto(s, n as int).contains(v));
}

/// Routing a sequence of pairs through a permutation keeps its contents:
/// the reindexed sequence carries the same multiset of pairs.
pub proof fn lemma_reindex_multiset(a: Seq<(u8, u8)>, b: Seq<(u8, u8)>)
    requires
        a.len() == b.len(),
        is_perm(b, b.len() as nat),
    ensures
        Seq::new(a.len(), |i: int| a[b[i].0 as int]).to_multiset() == a.to_multiset(),
    decreases a.len(),
{
    broadcast use vstd::seq_lib::group_to_multiset_ensures;

    let n = a.len() as int;
    let r = Seq::new(a.len(), |i: int| a[b[i].0 as int]);
    if n == 0 {
        assert(r =~= Seq::<(u8, u8)>::empty());
        assert(a =~= Seq::<(u8, u8)>::empty());
    } else {
        lemma_perm_surjective(b, b.len() as nat, n - 1);
        let j = choose|j: int| 0 <= j < n && (#[trigger] b[j]).0 == n - 1;
        let a2 = a.drop_last();
        let b2 = b.remove(j);
        assert(is_perm(b2, (n - 1) as nat)) by {
            assert(forall|i: int| 0 <= i < n - 1 ==> (#[trigger] b2[i]) == if i < j { b[i] } else { b[i + 1] });
            assert forall|i: int| 0 <= i < n - 1 implies (#[trigger] b2[i]).0 < n - 1 by {
                if i < j {
                    assert(b[i].0 != b[j].0);
                } else {
                    assert(b[i + 1].0 != b[j].0);
                }
            }
        }
        let r2 = Seq::new(a2.len(), |i: int| a2[b2[i].0 as int]);
        lemma_reindex_multiset(a2, b2);
        assert(r2 =~= r.remove(j)) by {
            assert forall|i: int| 0 <= i < n - 1 implies r2[i] == r.remove(j)[i] by {
                if i < j {
                    assert(r.remove(j)[i] == r[i]);
                    assert(b2[i] == b[i]);
                    assert(b[i].0 < n - 1 || b[i].0 == n - 1);
                    assert(b[i].0 != b[j].0);
                } else {
                    assert(r.remove(j)[i] == r[i + 1]);
                    assert(b2[i] == b[i + 1]);
                    assert(b[i + 1].0 != b[j].0);
                }
            }
        }
        assert(r.remove(j).to_multiset() == r.to_multiset().remove(r[j]));
        assert(r[j] == a[n - 1]);
        assert(a2.to_multiset() == a.remove(n - 1).to_multiset());
        assert(a.remove(n - 1).to_multiset() == a.to_multiset().remove(a[n - 1]));
        assert(r.to_multiset().contains(a[n - 1])) by {
            assert(r[j] == a[n - 1]);
            assert(r.to_multiset().count(a[n - 1]) > 0) by {
                assert(r.contains(a[n - 1])) by {
                    assert(r[j] == a[n - 1]);
                }
            }
        }
        assert(a.to_multiset().contains(a[n - 1])) by {
            assert(a.contains(a[n - 1])) by {
                assert(a[n - 1] == a[n - 1]);
            }
        }
        assert(r.to_multiset() =~= r.to_multiset().remove(r[j]).insert(a[n - 1]));
        assert(a.to_multiset() =~= a.to_multiset().remove(a[n - 1]).insert(a[n - 1]));
    }
}

/// The orientation sum only depends on the multiset of pairs.
pub proof fn lemma_o_sum_multiset(a: Seq<(u8, u8)>, b: Seq<(u8, u8)>)
    requires
        a.to_multiset() == b.to_multiset(),
    ensures
        o_sum(a) == o_sum(b),
    decreases a.len(),
{
    broadcast use vstd::seq_lib::group_to_multiset_ensures;

    if a.len() == 0 {
        assert(b.to_multiset().len() == 0);
        assert(b =~= Seq::<(u8, u8)>::empty());
    } else {
        let x = a.last();
        assert(a.to_multiset().contains(x)) by {
            assert(a.contains(x)) by {
                assert(a[a.len() - 1] == x);
            }
        }
        assert(b.to_multiset().contains(x));
        assert(b.contains(x));
        let j = choose|j: int| 0 <= j < b.len() && b[j] == x;
        let a2 = a.drop_last();
        let b2 = b.remove(j);
        assert(a2.to_multiset() == a.to_multiset().remove(x)) by {
            assert(a2 =~= a.remove(a.len() - 1));
        }
        assert(b2.to_multiset() == b.to_multiset().remove(x));
        lemma_o_sum_multiset(a2, b2);
        lemma_o_sum_remove(b, j);
        assert(o_sum(a) == o_sum(a2) + x.1);
    }
}

/// Removing one pair removes exactly its orientation from the sum.
pub proof fn lemma_o_sum_remove(s: Seq<(u8, u8)>, j: int)
    requires
        0 <= j < s.len(),
    ensures
        o_sum(s) == o_sum(s.remove(j)) + s[j].1,
    decreases s.len(),
{
    if j == s.len() - 1 {
        assert(s.remove(j) =~= s.drop_last());
    } else {
        lemma_o_sum_remove(s.drop_last(), j);
        assert(s.remove(j).drop_last() =~= s.drop_last().remove(j));
        assert(s.remove(j).last() == s.last());
        assert(o_sum(s.remove(j)) == o_sum(s.remove(j).drop_last()) + s.last().1);
    }
}

} // verus!

verus! {

use crate::definitions::{ori_sum_prefix, lemma_o_sum_is_prefix, lemma_mod_add_aligned};
use crate::puzzle::cube3x3::{apply_seq_spec, scrambled_view};
use crate::metric::Htm;

/// Summing the composed orientations prefix by prefix: each position adds
/// the generator's orientation and the routed element's orientation,
/// modulo `m`.
pub proof fn lemma_compose_sum_prefix(a: Seq<(u8, u8)>, b: Seq<(u8, u8)>, m: u8, k: int)
    requires
        is_valid(a, a.len() as nat, m),
        is_perm(b, a.len() as nat),
        m >= 1,
        0 <= k <= a.len(),
    ensures
        ori_sum_prefix(compose(a, b, m), k) % (m as int)
            == (ori_sum_prefix(b, k) + ori_sum_prefix(Seq::new(a.len(), |i: int| a[b[i].0 as int]), k))
                % (m as int),
        ori_sum_prefix(compose(a, b, m), k) >= 0,
    decreases k,
{
    let mid = Seq::new(a.len(), |i: int| a[b[i].0 as int]);
    let c = compose(a, b, m);
    crate::definitions::lemma_ori_sum_prefix_nonneg(c, k);
    if k > 0 {
        lemma_compose_sum_prefix(a, b, m, k - 1);
        let u = (b[k - 1].1 + a[b[k - 1].0 as int].1) as int;
        assert(c[k - 1].1 == u % (m as int));
        assert(mid[k - 1].1 == a[b[k - 1].0 as int].1);
        let sc = ori_sum_prefix(c, k - 1);
        let sb = ori_sum_prefix(b, k - 1);
        let sm = ori_sum_prefix(mid, k - 1);
        crate::definitions::lemma_ori_sum_prefix_nonneg(c, k - 1);
        crate::definitions::lemma_ori_sum_prefix_nonneg(b, k - 1);
        crate::definitions::lemma_ori_sum_prefix_nonneg(mid, k - 1);
        // fold the inner modulus into the running sum
        lemma_mod_add_aligned(u, sc, m as int);
        // (u % m + sc) % m == (u + sc) % m
        assert((sc + u % (m as int)) % (m as int) == (sc + u) % (m as int));
        lemma_mod_add_aligned(sc, u, m as int);
        // (sc % m + u) % m == (sc + u) % m, with sc % m == (sb + sm) % m
        assert(((sb + sm) % (m as int) + u) % (m as int) == (sc + u) % (m as int));
        lemma_mod_add_aligned(sb + sm, u, m as int);
        assert((sb + sm + u) % (m as int) == (sc + u) % (m as int));
        assert(ori_sum_prefix(c, k) == sc + u % (m as int));
        assert(ori_sum_prefix(b, k) + ori_sum_prefix(mid, k) == sb + sm + u);
    }
}

/// Group composition preserves a zero orientation sum: the composed
/// array's orientations still sum to zero modulo `m`. Together with the
/// generators' own zero sums this keeps every reachable array's
/// orientation sum at zero.
pub proof fn lemma_compose_preserves_zero_sum(a: Seq<(u8, u8)>, b: Seq<(u8, u8)>, n: nat, m: u8)
    requires
        is_valid(a, n, m),
        is_valid(b, n, m),
        m >= 1,
        o_sum(a) % (m as int) == 0,
        o_sum(b) % (m as int) == 0,
    ensures
        o_sum(compose(a, b, m)) % (m as int) == 0,
{
    let mid = Seq::new(a.len(), |i: int| a[b[i].0 as int]);
    lemma_reindex_multiset(a, b);
    lemma_o_sum_multiset(mid, a);
    lemma_compose_sum_prefix(a, b, m, n as int);
    lemma_o_sum_is_prefix(compose(a, b, m));
    lemma_o_sum_is_prefix(b);
    lemma_o_sum_is_prefix(mid);
    assert(compose(a, b, m).len() == n);
    crate::definitions::lemma_ori_sum_prefix_nonneg(b, n as int);
    crate::definitions::lemma_ori_sum_prefix_nonneg(mid, n as int);
    lemma_mod_add_aligned(o_sum(b), o_sum(mid), m as int);
    // (o_sum(b) % m + o_sum(mid)) % m == (o_sum(b) + o_sum(mid)) % m
    lemma_mod_add_aligned(o_sum(mid), 0, m as int);
    assert((o_sum(mid) % (m as int)) % (m as int) == o_sum(mid) % (m as int));
    assert((0 + o_sum(mid)) % (m as int) == o_sum(mid) % (m as int));
}

/// The identity array's orientation sum is zero.
pub proof fn lemma_id_zero_sum(n: nat)
    ensures
        o_sum(crate::definitions::id_seq(n)) == 0,
    decreases n,
{
    if n > 0 {
        lemma_id_zero_sum((n - 1) as nat);
        assert(crate::definitions::id_seq(n).drop_last() =~= crate::definitions::id_seq((n - 1) as nat));
    }
}

/// Every face turn's own orientation sum is zero, on corners and edges.
#[verifier::rlimit(100)]
pub proof fn lemma_generator_zero_sum(ix: int)
    requires
        0 <= ix < 18,
    ensures
        o_sum(corner_move_seq(ix)) % 3 == 0,
        o_sum(edge_move_seq(ix)) % 2 == 0,
{
    reveal_with_fuel(o_sum, 14);
    if ix == 0 { } else if ix == 1 { } else if ix == 2 { }
    else if ix == 3 { } else if ix == 4 { } else if ix == 5 { }
    else if ix == 6 { } else if ix == 7 { } else if ix == 8 { }
    else if ix == 9 { } else if ix == 10 { } else if ix == 11 { }
    else if ix == 12 { } else if ix == 13 { } else if ix == 14 { }
    else if ix == 15 { } else if ix == 16 { } else { }
}

/// Every state a move sequence can reach from the solved cube keeps both
/// orientation sums at zero: corners modulo three, edges modulo two.
pub proof fn lemma_reachable_zero_sum(turns: Seq<Htm>)
    ensures
        o_sum(scrambled_view(turns).0) % 3 == 0,
        o_sum(scrambled_view(turns).1) % 2 == 0,
        is_valid(scrambled_view(turns).0, 8, 3),
        is_valid(scrambled_view(turns).1, 12, 2),
{
    lemma_id_zero_sum(8);
    lemma_id_zero_sum(12);
    lemma_apply_seq_zero_sum(crate::definitions::id_seq(8), crate::definitions::id_seq(12), turns);
}

/// Applying any move sequence to a zero-sum state keeps both sums at zero.
pub proof fn lemma_apply_seq_zero_sum(corners: Seq<(u8, u8)>, edges: Seq<(u8, u8)>, turns: Seq<Htm>)
    requires
        is_valid(corners, 8, 3),
        is_valid(edges, 12, 2),
        o_sum(corners) % 3 == 0,
        o_sum(edges) % 2 == 0,
    ensures
        o_sum(apply_seq_spec(corners, edges, turns).0) % 3 == 0,
        o_sum(apply_seq_spec(corners, edges, turns).1) % 2 == 0,
        is_valid(apply_seq_spec(corners, edges, turns).0, 8, 3),
        is_valid(apply_seq_spec(corners, edges, turns).1, 12, 2),
    decreases turns.len(),
{
    if turns.len() > 0 {
        let t = turns[0];
        let c2 = compose(corners, corner_move_seq(t.idx()), 3);
        let e2 = compose(edges, edge_move_seq(t.idx()), 2);
        lemma_move_seq_valid(t.idx());
        lemma_generator_zero_sum(t.idx());
        lemma_compose_preserves_zero_sum(corners, corner_move_seq(t.idx()), 8, 3);
        lemma_compose_preserves_zero_sum(edges, edge_move_seq(t.idx()), 12, 2);
        lemma_compose_valid(corners, corner_move_seq(t.idx()), 8, 3);
        lemma_compose_valid(edges, edge_move_seq(t.idx()), 12, 2);
        lemma_apply_seq_zero_sum(c2, e2, turns.skip(1));
    }
}

/// The composition of valid arrays is valid.
pub proof fn lemma_compose_valid(a: Seq<(u8, u8)>, b: Seq<(u8, u8)>, n: nat, m: u8)
    requires
        is_valid(a, n, m),
        is_valid(b, n, m),
        m >= 1,
    ensures
        is_valid(compose(a, b, m), n, m),
{
    let c = compose(a, b, m);
    assert forall|i: int, j: int| 0 <= i < j < n implies c[i].0 != c[j].0 by {
        assert(b[i].0 != b[j].0);
        if b[i].0 < b[j].0 {
            assert(a[b[i].0 as int].0 != a[b[j].0 as int].0);
        } else {
            assert(a[b[j].0 as int].0 != a[b[i].0 as int].0);
        }
    }
    assert forall|i: int| 0 <= i < n implies (#[trigger] c[i]).1 < m by {
        assert(c[i].1 == ((b[i].1 + a[b[i].0 as int].1) as int % (m as int)) as u8);
    }
}

/// Every face turn's arrays are valid cubie arrays.
pub proof fn lemma_move_seq_valid(ix: int)
    requires
        0 <= ix < 18,
    ensures
        is_valid(corner_move_seq(ix), 8, 3),
        is_valid(edge_move_seq(ix), 12, 2),
{
}

} // verus!

verus! {

use crate::definitions::{p_dec, shift_ge, count_lt_range, lehmer_from, lehmer, p_canon,
    lemma_p_dec_permseq, lemma_fact_positive};
use crate::util::fact;

/// The value sequence `v`, as a cubie array with zero orientations.
pub open spec fn pairs_of(v: Seq<u8>) -> Seq<(u8, u8)> {
    Seq::new(v.len(), |i: int| (v[i], 0u8))
}

/// Counting below a threshold is blind to a shift at or above it, and a
/// range offset moves with its sequence.
pub proof fn lemma_count_shift(v: Seq<u8>, a: int, b: int, w: u8, d: u8)
    requires
        0 <= a,
        b <= v.len(),
        w <= d,
        forall|i: int| 0 <= i < v.len() ==> (#[trigger] v[i]) < 254,
    ensures
        count_lt_range(pairs_of(shift_ge(v, d)), a, b, w) == count_lt_range(pairs_of(v), a, b, w),
    decreases b - a,
{
    if a < b {
        lemma_count_shift(v, a, b - 1, w, d);
        assert(pairs_of(shift_ge(v, d))[b - 1].0 == shift_ge(v, d)[b - 1]);
        assert(shift_ge(v, d)[b - 1] == if v[b - 1] >= d { (v[b - 1] + 1) as u8 } else { v[b - 1] });
    }
}

/// An order-preserving shift leaves every inversion count alone: counting
/// the elements smaller than the shifted pivot among shifted elements is
/// counting the smaller elements before the shift.
pub proof fn lemma_count_shift_pivot(v: Seq<u8>, a: int, b: int, w: u8, d: u8)
    requires
        0 <= a,
        b <= v.len(),
        forall|i: int| 0 <= i < v.len() ==> (#[trigger] v[i]) < 254,
        w < 254,
    ensures
        count_lt_range(pairs_of(shift_ge(v, d)), a, b, if w >= d { (w + 1) as u8 } else { w })
            == count_lt_range(pairs_of(v), a, b, w),
    decreases b - a,
{
    if a < b {
        lemma_count_shift_pivot(v, a, b - 1, w, d);
        assert(pairs_of(shift_ge(v, d))[b - 1].0 == shift_ge(v, d)[b - 1]);
        assert(shift_ge(v, d)[b - 1] == if v[b - 1] >= d { (v[b - 1] + 1) as u8 } else { v[b - 1] });
    }
}

/// Inversion counts ignore a prepended head: positions shift together.
pub proof fn lemma_count_prepend(x: (u8, u8), s: Seq<(u8, u8)>, a: int, b: int, w: u8)
    requires
        0 <= a,
        b <= s.len(),
    ensures
        count_lt_range(seq![x].add(s), a + 1, b + 1, w) == count_lt_range(s, a, b, w),
    decreases b - a,
{
    if a < b {
        lemma_count_prepend(x, s, a, b - 1, w);
        assert(seq![x].add(s)[b] == s[b - 1]);
    }
}

/// The Lehmer code of a suffix ignores a prepended head.
pub proof fn lemma_lehmer_from_prepend(x: (u8, u8), s: Seq<(u8, u8)>, ix: int)
    requires
        0 <= ix <= s.len(),
    ensures
        lehmer_from(seq![x].add(s), ix + 1) == lehmer_from(s, ix),
    decreases s.len() - ix,
{
    let s2 = seq![x].add(s);
    if ix < s.len() - 1 {
        lemma_lehmer_from_prepend(x, s, ix + 1);
        lemma_count_prepend(x, s, ix + 1, s.len() as int, s[ix].0);
        assert(s2[ix + 1] == s[ix]);
    }
}

/// The Lehmer code is invariant under an order-preserving shift of the
/// element values.
pub proof fn lemma_lehmer_shift(v: Seq<u8>, d: u8, ix: int)
    requires
        0 <= ix <= v.len(),
        forall|i: int| 0 <= i < v.len() ==> (#[trigger] v[i]) < 254,
    ensures
        lehmer_from(pairs_of(shift_ge(v, d)), ix) == lehmer_from(pairs_of(v), ix),
    decreases v.len() - ix,
{
    let sh = pairs_of(shift_ge(v, d));
    let pv = pairs_of(v);
    if ix < v.len() - 1 {
        lemma_lehmer_shift(v, d, ix + 1);
        assert(sh[ix].0 == shift_ge(v, d)[ix]);
        assert(pv[ix].0 == v[ix]);
        lemma_count_shift_pivot(v, ix + 1, v.len() as int, v[ix], d);
        assert(shift_ge(v, d)[ix] == if v[ix] >= d { (v[ix] + 1) as u8 } else { v[ix] });
    }
}

/// In a sequence of distinct values below `k`, the count of elements
/// smaller than a bound is the bound itself once every smaller value is
/// present.
/// Nothing is smaller than zero.
pub proof fn lemma_count_lt_zero(s: Seq<(u8, u8)>, a: int, b: int)
    requires
        0 <= a,
        b <= s.len(),
    ensures
        count_lt_range(s, a, b, 0) == 0,
    decreases b - a,
{
    if a < b {
        lemma_count_lt_zero(s, a, b - 1);
    }
}

pub proof fn lemma_count_lt_full(v: Seq<u8>, k: nat, w: u8)
    requires
        v.len() == k,
        forall|i: int| 0 <= i < k ==> (#[trigger] v[i]) < k,
        forall|i: int, j: int| 0 <= i < j < k ==> v[i] != v[j],
        w <= k,
    ensures
        count_lt_range(pairs_of(v), 0, k as int, w) == w,
    decreases w,
{
    if w == 0 {
        lemma_count_lt_zero(pairs_of(v), 0, k as int);
    } else {
        lemma_count_lt_full(v, k, (w - 1) as u8);
        lemma_perm_surjective(pairs_of(v), k, w - 1);
        let j = choose|j: int| 0 <= j < k && (#[trigger] pairs_of(v)[j]).0 == w - 1;
        lemma_count_succ(pairs_of(v), 0, k as int, (w - 1) as u8, j);
    }
}

/// Counting below `w + 1` is counting below `w`, plus one exactly when the
/// position holding `w` itself lies inside the range; distinctness makes
/// that position unique.
pub proof fn lemma_count_succ(s: Seq<(u8, u8)>, a: int, b: int, w: u8, j: int)
    requires
        0 <= a <= b <= s.len(),
        0 <= j < s.len(),
        s[j].0 == w,
        w < 255,
        forall|i1: int, i2: int| 0 <= i1 < i2 < s.len() ==> s[i1].0 != s[i2].0,
    ensures
        count_lt_range(s, a, b, (w + 1) as u8)
            == count_lt_range(s, a, b, w) + if a <= j < b { 1int } else { 0int },
    decreases b - a,
{
    if a < b {
        lemma_count_succ(s, a, b - 1, w, j);
        if b - 1 == j {
        } else {
            assert(s[b - 1].0 != w) by {
                if b - 1 < j {
                    assert(s[b - 1].0 != s[j].0);
                } else {
                    assert(s[j].0 != s[b - 1].0);
                }
            }
        }
    }
}

} // verus!

verus! {

/// Encoding a decoded permutation coordinate restores it: for every
/// coordinate in the space, the Lehmer code of its decoded permutation is
/// the coordinate itself.
pub proof fn lemma_lehmer_round_trip(t: int, k: nat)
    requires
        1 <= k <= 12,
        0 <= t < fact(k),
    ensures
        lehmer(pairs_of(p_dec(t, k))) == t,
    decreases k,
{
    lemma_p_dec_permseq(t, k);
    let v = p_dec(t, k);
    let pv = pairs_of(v);
    if k == 1 {
        crate::util::lemma_fact_small();
        assert(t == 0);
        assert(pv.len() == 1);
        assert(lehmer_from(pv, 0) == 0);
        assert(lehmer(pv) == 0);
    } else {
        let f = fact((k - 1) as nat) as int;
        let d = t / f;
        let sub = p_dec(t % f, (k - 1) as nat);
        lemma_fact_positive((k - 1) as nat);
        vstd::arithmetic::div_mod::lemma_fundamental_div_mod(t, f);
        assert(fact(k) == k * fact((k - 1) as nat));
        assert(0 <= d < k) by (nonlinear_arith)
            requires
                t == f * d + t % f,
                0 <= t % f < f,
                0 <= t < k * f,
                f >= 1;
        lemma_p_dec_permseq(t % f, (k - 1) as nat);
        let sh = shift_ge(sub, d as u8);
        assert(v == seq![d as u8].add(sh));
        let psh = pairs_of(sh);
        assert(pv =~= seq![(d as u8, 0u8)].add(psh)) by {
            assert(forall|i: int| 0 <= i < k ==> (#[trigger] pv[i]) == (v[i], 0u8));
            assert(forall|i: int| 1 <= i < k ==> (#[trigger] v[i]) == sh[i - 1]);
        }
        // the leading digit counts the smaller elements after it
        assert(count_lt_range(pv, 1, k as int, d as u8) == d) by {
            lemma_count_prepend((d as u8, 0u8), psh, 0, (k - 1) as int, d as u8);
            assert(count_lt_range(pv, 1, k as int, d as u8)
                == count_lt_range(psh, 0, (k - 1) as int, d as u8));
            lemma_count_shift(sub, 0, (k - 1) as int, d as u8, d as u8);
            lemma_count_lt_full(sub, (k - 1) as nat, d as u8);
        }
        // the tail is the shifted sub-permutation, whose code is unchanged
        assert(lehmer_from(pv, 1) == t % f) by {
            lemma_lehmer_from_prepend((d as u8, 0u8), psh, 0);
            lemma_lehmer_shift(sub, d as u8, 0);
            lemma_lehmer_round_trip(t % f, (k - 1) as nat);
        }
        assert(lehmer_from(pv, 0)
            == count_lt_range(pv, 1, k as int, pv[0].0) * fact((k - 1) as nat) + lehmer_from(pv, 1));
        assert(pv[0].0 == d as u8);
        assert(count_lt_range(pv, 1, k as int, pv[0].0) * fact((k - 1) as nat) == d * f)
            by (nonlinear_arith)
            requires count_lt_range(pv, 1, k as int, pv[0].0) == d, fact((k - 1) as nat) == f;
        assert(d * f == f * d) by (nonlinear_arith);
        assert(lehmer_from(pv, 0) == t);
    }
}

/// The permutation round trip, stated over the canonical decoded array of
/// the library: encoding the canonical array of a coordinate returns the
/// coordinate.
pub proof fn lemma_p_canon_round_trip(t: int, n: nat)
    requires
        1 <= n <= 12,
        0 <= t < fact(n),
    ensures
        lehmer(p_canon(t, n)) == t,
{
    lemma_p_dec_permseq(t, n);
    assert(p_canon(t, n) =~= pairs_of(p_dec(t, n)));
    lemma_lehmer_round_trip(t, n);
}

} // verus!

verus! {

use crate::definitions::{c_dec, c_val_from, c_val, c_canon};
use crate::util::lemma_binom_over;
use crate::util::binom;

/// The rank contribution reads only the first `ix + 1` positions.
pub proof fn lemma_c_val_from_congruence(s1: Seq<(u8, u8)>, s2: Seq<(u8, u8)>, ix: int, r: nat, h: u8)
    requires
        forall|j: int| 0 <= j <= ix ==> s1[j].0 == s2[j].0,
    ensures
        c_val_from(s1, ix, r, h) == c_val_from(s2, ix, r, h),
    decreases ix + 1,
{
    if ix >= 0 {
        if s1[ix].0 >= h && r >= 1 {
            lemma_c_val_from_congruence(s1, s2, ix - 1, (r - 1) as nat, h);
        } else {
            lemma_c_val_from_congruence(s1, s2, ix - 1, r, h);
        }
    }
}

/// Encoding a decoded combination coordinate restores it.
pub proof fn lemma_c_round_trip(t: int, ix: int, r: nat, h: u8)
    requires
        ix >= -1,
        0 <= t < binom((ix + 1) as nat, r),
        ix + 1 - r <= h,
        h + r <= 254,
    ensures
        c_val_from(pairs_of(c_dec(t, ix, r, h)), ix, r, h) == t,
    decreases ix + 1,
{
    crate::definitions::lemma_c_dec_props(t, ix, r, h);
    let v = c_dec(t, ix, r, h);
    let pv = pairs_of(v);
    if ix < 0 {
        if r >= 1 {
            lemma_binom_over((ix + 1) as nat, r);
        } else {
            assert(binom((ix + 1) as nat, 0) == 1);
        }
    } else {
        if r > ix + 1 {
            lemma_binom_over((ix + 1) as nat, r);
            assert(false);
        }
        let b = binom(ix as nat, r);
        if t >= b && r >= 1 {
            let sub = c_dec(t - b, ix - 1, (r - 1) as nat, h);
            assert(v == sub.push(((h + r - 1)) as u8));
            assert(binom((ix + 1) as nat, r)
                == binom(ix as nat, (r - 1) as nat) + binom(ix as nat, r));
            crate::definitions::lemma_c_dec_props(t - b, ix - 1, (r - 1) as nat, h);
            assert(pv[ix].0 == (h + r - 1) as u8);
            assert(pv[ix].0 >= h);
            lemma_c_round_trip(t - b, ix - 1, (r - 1) as nat, h);
            lemma_c_val_from_congruence(pairs_of(sub), pv, ix - 1, (r - 1) as nat, h);
            assert(c_val_from(pv, ix, r, h) == b + c_val_from(pv, ix - 1, (r - 1) as nat, h));
        } else {
            if r == 0 {
                assert(binom((ix + 1) as nat, 0) == 1);
                assert(binom(ix as nat, 0) == 1);
            }
            let sub = c_dec(t, ix - 1, r, h);
            assert(v == sub.push(((ix - r)) as u8));
            crate::definitions::lemma_c_dec_props(t, ix - 1, r, h);
            assert(pv[ix].0 == (ix - r) as u8);
            assert(pv[ix].0 < h);
            lemma_c_round_trip(t, ix - 1, r, h);
            lemma_c_val_from_congruence(pairs_of(sub), pv, ix - 1, r, h);
            assert(c_val_from(pv, ix, r, h) == c_val_from(pv, ix - 1, r, h));
        }
    }
}

/// The combination round trip, stated over the canonical decoded array of
/// the library: encoding the canonical array of a coordinate returns the
/// coordinate.
pub proof fn lemma_c_canon_round_trip(t: int, n: nat, k: nat)
    requires
        1 <= k <= n <= 12,
        0 <= t < binom(n, k),
    ensures
        c_val(c_canon(t, n, k), n, k) == t,
{
    let h = (n - k) as u8;
    crate::definitions::lemma_c_dec_props(t, n - 1, k, h);
    assert(c_canon(t, n, k) =~= pairs_of(c_dec(t, n - 1, k, h)));
    lemma_c_round_trip(t, n - 1, k, h);
    lemma_c_val_from_congruence(pairs_of(c_dec(t, n - 1, k, h)), c_canon(t, n, k), n - 1, k, h);
}

} // verus!

verus! {

use crate::kociemba::phase1;
use crate::kociemba::phase2;
use crate::search::Search;
use crate::transition::reaches;

/// The phase-1 heuristic is exact at the phase-1 goal: it reports zero.
pub proof fn lemma_phase1_heuristic_at_goal(
    s: phase1::Cube,
    hd: &phase1::PruningTable,
    td: &phase1::Table,
)
    requires
        td.wf(),
        hd.wf(td),
        s.solved_spec(),
    ensures
        s.h_spec(hd) == 0,
{
    phase1::lemma_slice_size();
}

/// The phase-1 heuristic understates the true phase-1 distance: whenever
/// every coordinate of a state is within `d` table transitions of its goal
/// coordinate, the heuristic reports at most `d`. The flood that built each
/// pruning table guarantees the premise for the distance from the goal.
pub proof fn lemma_phase1_heuristic_admissible(
    s: phase1::Cube,
    hd: &phase1::PruningTable,
    td: &phase1::Table,
    d: int,
)
    requires
        td.wf(),
        hd.wf(td),
        s.wf(),
        0 <= d <= 253,
        reaches(td.corners, 0, s.corners@, d),
        reaches(td.edges, 0, s.edges@, d),
        reaches(td.slice, crate::util::binom(12, 4) - 1, s.slice@, d),
    ensures
        s.h_spec(hd) <= d,
{
    phase1::lemma_co_size();
    phase1::lemma_slice_size();
}

/// The phase-2 heuristic is exact at the phase-2 goal: it reports zero.
pub proof fn lemma_phase2_heuristic_at_goal(
    s: phase2::Cube,
    hd: &phase2::PruningTable,
    td: &phase2::Table,
)
    requires
        td.wf(),
        hd.wf(td),
        s.solved_spec(),
    ensures
        s.h_spec(hd) == 0,
{
}

/// The phase-2 heuristic understates the true phase-2 distance in the same
/// sense as the phase-1 one.
pub proof fn lemma_phase2_heuristic_admissible(
    s: phase2::Cube,
    hd: &phase2::PruningTable,
    td: &phase2::Table,
    d: int,
)
    requires
        td.wf(),
        hd.wf(td),
        s.wf(),
        0 <= d <= 253,
        reaches(td.corners, 0, s.corners@, d),
        reaches(td.edges, 0, s.edges@, d),
        reaches(td.slice, 0, s.slice@, d),
    ensures
        s.h_spec(hd) <= d,
{
    phase2::lemma_p2_sizes();
}

} // verus!

verus! {

use crate::definitions::{o_dec, o_val, o_val_prefix, o_canon, digit_sum,
    lemma_digit_sum_matches, lemma_ori_sum_prefix_nonneg, lemma_o_val_prefix_bound};

/// Decoding an encoded orientation prefix recovers its digits.
pub proof fn lemma_o_digits_round_trip(s: Seq<(u8, u8)>, k: int, m: u8)
    requires
        oris_below(s, m),
        m >= 1,
        0 <= k <= s.len(),
    ensures
        o_dec(o_val_prefix(s, k, m), k as nat, m).len() == k,
        forall|i: int| 0 <= i < k
            ==> (#[trigger] o_dec(o_val_prefix(s, k, m), k as nat, m)[i]) == s[i].1,
    decreases k,
{
    crate::definitions::lemma_o_dec_len(o_val_prefix(s, k, m), k as nat, m);
    if k > 0 {
        let t = o_val_prefix(s, k, m);
        let q = o_val_prefix(s, k - 1, m);
        lemma_o_val_prefix_bound(s, k - 1, m);
        assert(t == q * m + s[k - 1].1);
        assert(t == m * q + s[k - 1].1) by (nonlinear_arith)
            requires t == q * m + s[k - 1].1;
        vstd::arithmetic::div_mod::lemma_fundamental_div_mod_converse(
            t, m as int, q, s[k - 1].1 as int);
        assert(t % (m as int) == s[k - 1].1);
        assert(t / (m as int) == q);
        lemma_o_digits_round_trip(s, k - 1, m);
        let d = o_dec(t, k as nat, m);
        let dp = o_dec(q, (k - 1) as nat, m);
        crate::definitions::lemma_o_dec_len(q, (k - 1) as nat, m);
        assert(d == dp.push((t % (m as int)) as u8));
        assert forall|i: int| 0 <= i < k implies (#[trigger] d[i]) == s[i].1 by {
            if i < k - 1 {
                assert(d[i] == dp[i]);
            }
        }
    }
}

/// The completing orientation is the withheld last digit whenever the sum
/// is zero modulo `m`.
pub proof fn lemma_fixup_recovers(p: int, last: u8, m: u8)
    requires
        m >= 1,
        p >= 0,
        last < m,
        (p + last) % (m as int) == 0,
    ensures
        ((m as int) - p % (m as int)) % (m as int) == last,
{
    let mi = m as int;
    let q = p % mi;
    vstd::arithmetic::div_mod::lemma_mod_bound(p, mi);
    crate::definitions::lemma_mod_add_aligned(p, last as int, mi);
    assert((q + last) % mi == 0);
    if q + last == 0 {
        vstd::arithmetic::div_mod::lemma_mod_self_0(mi);
    } else {
        assert(0 < q + last < 2 * mi);
        if q + last < mi {
            vstd::arithmetic::div_mod::lemma_small_mod((q + last) as nat, m as nat);
            assert(false);
        }
        assert((q + last - mi) + mi == q + last);
        vstd::arithmetic::div_mod::lemma_mod_add_multiples_vanish(q + last - mi, mi);
        vstd::arithmetic::div_mod::lemma_small_mod((q + last - mi) as nat, m as nat);
        assert(q + last == mi);
        vstd::arithmetic::div_mod::lemma_small_mod((mi - q) as nat, m as nat);
    }
}

/// Decoding an encoded orientation coordinate restores the whole array,
/// provided the array is canonical: identity permutation and a zero
/// orientation sum, as every reachable orientation state has.
pub proof fn lemma_o_canon_round_trip(s: Seq<(u8, u8)>, n: nat, m: u8)
    requires
        crate::definitions::is_valid(s, n, m),
        n >= 1,
        m >= 1,
        forall|i: int| 0 <= i < n ==> (#[trigger] s[i]).0 == i,
        o_sum(s) % (m as int) == 0,
    ensures
        o_canon(o_val(s, m), n, m) == s,
{
    let t = o_val(s, m);
    let d = o_dec(t, (n - 1) as nat, m);
    lemma_o_digits_round_trip(s, n as int - 1, m);
    lemma_o_sum_is_prefix(s);
    lemma_ori_sum_prefix_nonneg(s, n as int - 1);
    lemma_digit_sum_matches(s, d, n as int - 1);
    assert(ori_sum_prefix(s, n as int) == ori_sum_prefix(s, n as int - 1) + s[n - 1].1);
    lemma_fixup_recovers(digit_sum(d), s[n - 1].1, m);
    assert forall|i: int| 0 <= i < n implies (#[trigger] o_canon(t, n, m)[i]) == s[i] by {
        if i < n - 1 {
            assert(o_canon(t, n, m)[i] == (i as u8, d[i]));
        }
    }
    assert(o_canon(t, n, m) =~= s);
}

} // verus!

verus! {

use crate::transition::{Table as Transitions, lemma_reaches_step, is_inverse_gen, has_inverse,
    table_has_inverses};
use crate::search::{follow, edges_ok, is_solution, admissible};

/// The coordinate `c` becomes after the first `i` edges of `p`, one table
/// transition per edge.
pub open spec fn run(t: Transitions, c: int, p: Seq<usize>, i: int) -> int
    decreases i,
{
    if i <= 0 {
        c
    } else {
        t.entry(run(t, c, p, i - 1), p[i - 1] as int)
    }
}

/// A run stays inside the coordinate space.
pub proof fn lemma_run_in_range(t: Transitions, c: int, p: Seq<usize>, i: int)
    requires
        t.wf(),
        0 <= c < t.size_spec(),
        0 <= i <= p.len(),
        forall|j: int| 0 <= j < p.len() ==> 0 <= #[trigger] p[j] < t.gens_spec(),
    ensures
        0 <= run(t, c, p, i) < t.size_spec(),
    decreases i,
{
    if i > 0 {
        lemma_run_in_range(t, c, p, i - 1);
    }
}

/// In a table closed under inverses, wherever a run ends is a place from
/// which the start is reachable in as many steps.
pub proof fn lemma_run_reverses(t: Transitions, c: int, p: Seq<usize>, i: int)
    requires
        t.wf(),
        table_has_inverses(t),
        0 <= c < t.size_spec(),
        0 <= i <= p.len(),
        forall|j: int| 0 <= j < p.len() ==> 0 <= #[trigger] p[j] < t.gens_spec(),
    ensures
        crate::transition::reaches(t, run(t, c, p, p.len() as int), run(t, c, p, i), p.len() - i),
    decreases p.len() - i,
{
    let goal = run(t, c, p, p.len() as int);
    if i == p.len() {
    } else {
        lemma_run_reverses(t, c, p, i + 1);
        // step back once through the inverse of the edge taken at position i
        let g = p[i] as int;
        assert(has_inverse(t, g));
        let g2 = choose|g2: int| 0 <= g2 < t.gens_spec() && #[trigger] is_inverse_gen(t, g, g2);
        lemma_run_in_range(t, c, p, i);
        lemma_run_in_range(t, c, p, i + 1);
        assert(run(t, c, p, i + 1) == t.entry(run(t, c, p, i), g));
        assert(t.entry(t.entry(run(t, c, p, i), g), g2) == run(t, c, p, i));
        lemma_reaches_step(t, goal, run(t, c, p, i + 1), g2, p.len() - i - 1);
    }
}

} // verus!

verus! {

/// A run after the first edge is a run over the rest.
pub proof fn lemma_run_skip(t: Transitions, c: int, p: Seq<usize>, i: int)
    requires
        p.len() >= 1,
        0 <= i <= p.len() - 1,
    ensures
        run(t, t.entry(c, p[0] as int), p.skip(1), i) == run(t, c, p, i + 1),
    decreases i,
{
    if i == 0 {
        assert(run(t, c, p, 0) == c);
        assert(run(t, t.entry(c, p[0] as int), p.skip(1), 0) == t.entry(c, p[0] as int));
    } else {
        lemma_run_skip(t, c, p, i - 1);
        assert(p.skip(1)[i - 1] == p[i]);
    }
}

/// Following a phase-1 path moves each of the three coordinates by its own
/// table run.
pub proof fn lemma_phase1_follow_components(s: phase1::Cube, td: &phase1::Table, p: Seq<usize>)
    requires
        td.wf(),
        s.wf(),
        edges_ok::<phase1::Cube>(td, p),
    ensures
        follow(s, td, p).corners@ == run(td.corners, s.corners@, p, p.len() as int),
        follow(s, td, p).edges@ == run(td.edges, s.edges@, p, p.len() as int),
        follow(s, td, p).slice@ == run(td.slice, s.slice@, p, p.len() as int),
        follow(s, td, p).wf(),
    decreases p.len(),
{
    phase1::lemma_co_size();
    phase1::lemma_slice_size();
    if p.len() == 0 {
    } else {
        let g = p[0] as int;
        let s2 = s.step_spec(td, g);
        assert(td.corners.entry(s.corners@, g) == phase1::co_step(s.corners@, g));
        assert(td.edges.entry(s.edges@, g) == phase1::eo_step(s.edges@, g));
        assert(td.slice.entry(s.slice@, g) == phase1::slice_step(s.slice@, g));
        crate::definitions::lemma_o_coord_spec_view::<8, 3>(phase1::co_step(s.corners@, g));
        crate::definitions::lemma_o_coord_spec_view::<12, 2>(phase1::eo_step(s.edges@, g));
        crate::definitions::lemma_c_coord_spec_view::<12, 4>(phase1::slice_step(s.slice@, g));
        assert(s2.corners@ == td.corners.entry(s.corners@, g));
        assert(s2.wf());
        assert(edges_ok::<phase1::Cube>(td, p.skip(1))) by {
            assert(forall|i: int| 0 <= i < p.skip(1).len() ==> #[trigger] p.skip(1)[i] == p[i + 1]);
        }
        lemma_phase1_follow_components(s2, td, p.skip(1));
        lemma_run_skip(td.corners, s.corners@, p, p.len() - 1);
        lemma_run_skip(td.edges, s.edges@, p, p.len() - 1);
        lemma_run_skip(td.slice, s.slice@, p, p.len() - 1);
        assert(p.skip(1).len() == p.len() - 1);
    }
}

/// With each of the three transition tables closed under inverses, the
/// phase-1 heuristic is admissible: it never exceeds the length of any
/// move sequence that solves the phase. The iterative-deepening searches
/// then return shortest phase solutions.
pub proof fn lemma_phase1_admissible(hd: &phase1::PruningTable, td: &phase1::Table)
    requires
        td.wf(),
        hd.wf(td),
        table_has_inverses(td.corners),
        table_has_inverses(td.edges),
        table_has_inverses(td.slice),
    ensures
        admissible::<phase1::Cube>(hd, td),
{
    phase1::lemma_co_size();
    phase1::lemma_slice_size();
    assert forall|s: phase1::Cube, p: Seq<usize>|
        s.inv(td) && #[trigger] is_solution(s, td, p)
        implies s.h_spec(hd) <= p.len() by {
        lemma_phase1_follow_components(s, td, p);
        if p.len() <= 253 {
            lemma_run_reverses(td.corners, s.corners@, p, 0);
            lemma_run_reverses(td.edges, s.edges@, p, 0);
            lemma_run_reverses(td.slice, s.slice@, p, 0);
            lemma_phase1_heuristic_admissible(s, hd, td, p.len() as int);
        } else {
            assert(hd.corners.depth(s.corners@) <= 254);
            assert(hd.edges.depth(s.edges@) <= 254);
            assert(hd.slice.depth(s.slice@) <= 254);
        }
    }
}

/// Following a phase-2 path moves each of the three coordinates by its own
/// table run.
pub proof fn lemma_phase2_follow_components(s: phase2::Cube, td: &phase2::Table, p: Seq<usize>)
    requires
        td.wf(),
        s.wf(),
        edges_ok::<phase2::Cube>(td, p),
    ensures
        follow(s, td, p).corners@ == run(td.corners, s.corners@, p, p.len() as int),
        follow(s, td, p).edges@ == run(td.edges, s.edges@, p, p.len() as int),
        follow(s, td, p).slice@ == run(td.slice, s.slice@, p, p.len() as int),
        follow(s, td, p).wf(),
    decreases p.len(),
{
    phase2::lemma_p2_sizes();
    if p.len() == 0 {
    } else {
        let g = p[0] as int;
        let s2 = s.step_spec(td, g);
        assert(td.corners.entry(s.corners@, g) == phase2::cp_step(s.corners@, g));
        assert(td.edges.entry(s.edges@, g) == phase2::ep_step(s.edges@, g));
        assert(td.slice.entry(s.slice@, g) == phase2::sp_step(s.slice@, g));
        crate::definitions::lemma_p_coord_spec_view::<8>(phase2::cp_step(s.corners@, g));
        crate::definitions::lemma_p_coord_spec_view::<8>(phase2::ep_step(s.edges@, g));
        crate::definitions::lemma_p_coord_spec_view::<4>(phase2::sp_step(s.slice@, g));
        assert(s2.wf());
        assert(edges_ok::<phase2::Cube>(td, p.skip(1))) by {
            assert(forall|i: int| 0 <= i < p.skip(1).len() ==> #[trigger] p.skip(1)[i] == p[i + 1]);
        }
        lemma_phase2_follow_components(s2, td, p.skip(1));
        lemma_run_skip(td.corners, s.corners@, p, p.len() - 1);
        lemma_run_skip(td.edges, s.edges@, p, p.len() - 1);
        lemma_run_skip(td.slice, s.slice@, p, p.len() - 1);
        assert(p.skip(1).len() == p.len() - 1);
    }
}

/// With each of the three transition tables closed under inverses, the
/// phase-2 heuristic is admissible.
pub proof fn lemma_phase2_admissible(hd: &phase2::PruningTable, td: &phase2::Table)
    requires
        td.wf(),
        hd.wf(td),
        table_has_inverses(td.corners),
        table_has_inverses(td.edges),
        table_has_inverses(td.slice),
    ensures
        admissible::<phase2::Cube>(hd, td),
{
    phase2::lemma_p2_sizes();
    assert forall|s: phase2::Cube, p: Seq<usize>|
        s.inv(td) && #[trigger] is_solution(s, td, p)
        implies s.h_spec(hd) <= p.len() by {
        lemma_phase2_follow_components(s, td, p);
        if p.len() <= 253 {
            lemma_run_reverses(td.corners, s.corners@, p, 0);
            lemma_run_reverses(td.edges, s.edges@, p, 0);
            lemma_run_reverses(td.slice, s.slice@, p, 0);
            lemma_phase2_heuristic_admissible(s, hd, td, p.len() as int);
        } else {
            assert(hd.corners.depth(s.corners@) <= 254);
            assert(hd.edges.depth(s.edges@) <= 254);
            assert(hd.slice.depth(s.slice@) <= 254);
        }
    }
}

} // verus!

verus! {

/// Group composition of cubie arrays is associative.
pub proof fn lemma_compose_assoc(a: Seq<(u8, u8)>, b: Seq<(u8, u8)>, c: Seq<(u8, u8)>, n: nat, m: u8)
    requires
        is_valid(a, n, m),
        is_valid(b, n, m),
        is_valid(c, n, m),
        m >= 1,
    ensures
        compose(compose(a, b, m), c, m) == compose(a, compose(b, c, m), m),
{
    let ab = compose(a, b, m);
    let bc = compose(b, c, m);
    assert forall|i: int| 0 <= i < n
        implies compose(ab, c, m)[i] == compose(a, bc, m)[i] by {
        let j = c[i].0 as int;
        let k = b[j].0 as int;
        assert(ab[j] == (a[k].0, ((b[j].1 + a[k].1) as int % (m as int)) as u8));
        assert(bc[i] == (b[j].0, ((c[i].1 + b[j].1) as int % (m as int)) as u8));
        let u = c[i].1 as int;
        let v = b[j].1 as int;
        let w = a[k].1 as int;
        crate::definitions::lemma_mod_add_aligned(v + w, u, m as int);
        assert(((v + w) % (m as int) + u) % (m as int) == (v + w + u) % (m as int));
        crate::definitions::lemma_mod_add_aligned(u + v, w, m as int);
        assert(((u + v) % (m as int) + w) % (m as int) == (u + v + w) % (m as int));
        assert(compose(ab, c, m)[i].1 == ((u + (v + w) % (m as int)) as int % (m as int)) as u8);
        assert(compose(a, bc, m)[i].1 == (((u + v) % (m as int) + w) as int % (m as int)) as u8);
        assert((u + (v + w) % (m as int)) % (m as int) == ((v + w) % (m as int) + u) % (m as int));
    }
    assert(compose(ab, c, m) =~= compose(a, bc, m));
}

/// The canonical array of an orientation coordinate is valid, carries the
/// identity permutation, sums to zero, and encodes back to the coordinate.
pub proof fn lemma_o_canon_facts(t: int, n: nat, m: u8)
    requires
        1 <= n <= 256,
        m >= 1,
        0 <= t < crate::util::pow(m as nat, (n - 1) as nat),
    ensures
        is_valid(o_canon(t, n, m), n, m),
        forall|i: int| 0 <= i < n ==> (#[trigger] o_canon(t, n, m)[i]).0 == i,
        o_sum(o_canon(t, n, m)) % (m as int) == 0,
        o_val(o_canon(t, n, m), m) == t,
{
    let s = o_canon(t, n, m);
    let d = o_dec(t, (n - 1) as nat, m);
    crate::definitions::lemma_o_dec_len(t, (n - 1) as nat, m);
    crate::definitions::lemma_o_dec_below(t, (n - 1) as nat, m);
    assert forall|i: int| 0 <= i < n implies (#[trigger] s[i]).1 < m by {
        if i < n - 1 {
            assert(s[i].1 == d[i]);
        } else {
            vstd::arithmetic::div_mod::lemma_mod_bound(
                (m as int) - digit_sum(d) % (m as int), m as int);
            lemma_digit_sum_nonneg(d);
            vstd::arithmetic::div_mod::lemma_mod_bound(digit_sum(d), m as int);
        }
    }
    assert(is_valid(s, n, m));
    crate::definitions::lemma_o_dec_val(t, (n - 1) as nat, m, s);
    // the completing entry cancels the digit sum
    crate::definitions::lemma_o_sum_is_prefix(s);
    lemma_digit_sum_matches(s, d, n as int - 1);
    lemma_digit_sum_nonneg(d);
    crate::definitions::lemma_fixup_cancels(digit_sum(d), m as int);
    assert(ori_sum_prefix(s, n as int)
        == ori_sum_prefix(s, n as int - 1) + s[n - 1].1);
}

/// A digit sum is never negative.
pub proof fn lemma_digit_sum_nonneg(d: Seq<u8>)
    ensures
        digit_sum(d) >= 0,
    decreases d.len(),
{
    if d.len() > 0 {
        lemma_digit_sum_nonneg(d.drop_last());
    }
}

/// Re-encoding an orientation coordinate's decode of any zero-sum array
/// reproduces that array's orientations, position by position.
pub proof fn lemma_o_canon_oris(s: Seq<(u8, u8)>, n: nat, m: u8)
    requires
        is_valid(s, n, m),
        n >= 1,
        m >= 1,
        o_sum(s) % (m as int) == 0,
    ensures
        forall|i: int| 0 <= i < n
            ==> (#[trigger] o_canon(o_val(s, m), n, m)[i]).1 == s[i].1,
{
    let t = o_val(s, m);
    let d = o_dec(t, (n - 1) as nat, m);
    crate::definitions::lemma_o_val_prefix_bound(s, n as int - 1, m);
    lemma_o_digits_round_trip(s, n as int - 1, m);
    crate::definitions::lemma_o_sum_is_prefix(s);
    lemma_ori_sum_prefix_nonneg(s, n as int - 1);
    lemma_digit_sum_matches(s, d, n as int - 1);
    assert(ori_sum_prefix(s, n as int) == ori_sum_prefix(s, n as int - 1) + s[n - 1].1);
    lemma_fixup_recovers(digit_sum(d), s[n - 1].1, m);
    assert forall|i: int| 0 <= i < n
        implies (#[trigger] o_canon(t, n, m)[i]).1 == s[i].1 by {
        if i < n - 1 {
            assert(o_canon(t, n, m)[i].1 == d[i]);
        }
    }
}

/// Arrays with the same orientations compose to the same orientations, and
/// encode to the same orientation coordinate.
pub proof fn lemma_o_val_compose_congruence(
    x: Seq<(u8, u8)>,
    y: Seq<(u8, u8)>,
    b: Seq<(u8, u8)>,
    n: nat,
    m: u8,
)
    requires
        x.len() == n,
        y.len() == n,
        is_perm(b, n),
        forall|i: int| 0 <= i < n ==> (#[trigger] x[i]).1 == y[i].1,
    ensures
        o_val(compose(x, b, m), m) == o_val(compose(y, b, m), m),
{
    assert forall|i: int| 0 <= i < n
        implies (#[trigger] compose(x, b, m)[i]).1 == compose(y, b, m)[i].1 by {
        assert(x[b[i].0 as int].1 == y[b[i].0 as int].1);
    }
    crate::definitions::lemma_o_val_prefix_congruence(
        compose(x, b, m), compose(y, b, m), n as int - 1, m);
}

} // verus!

verus! {

/// One table step and its inverse step cancel at the orientation
/// coordinate level: decode, compose with a generator, encode, decode,
/// compose with its inverse, encode — back to the start.
pub proof fn lemma_o_step_cancels(c: int, g1: Seq<(u8, u8)>, g2: Seq<(u8, u8)>, n: nat, m: u8)
    requires
        1 <= n <= 256,
        m >= 1,
        0 <= c < crate::util::pow(m as nat, (n - 1) as nat),
        is_valid(g1, n, m),
        is_valid(g2, n, m),
        o_sum(g1) % (m as int) == 0,
        compose(g1, g2, m) == id_seq(n),
    ensures
        o_val(compose(o_canon(o_val(compose(o_canon(c, n, m), g1, m), m), n, m), g2, m), m) == c,
{
    let a = o_canon(c, n, m);
    lemma_o_canon_facts(c, n, m);
    let x = compose(a, g1, m);
    lemma_compose_valid(a, g1, n, m);
    lemma_compose_preserves_zero_sum(a, g1, n, m);
    let c1 = o_val(x, m);
    crate::definitions::lemma_o_val_prefix_bound(x, n as int - 1, m);
    let y = o_canon(c1, n, m);
    lemma_o_canon_facts(c1, n, m);
    lemma_o_canon_oris(x, n, m);
    lemma_o_val_compose_congruence(y, x, g2, n, m);
    lemma_compose_assoc(a, g1, g2, n, m);
    lemma_compose_identity_right(a, n, m);
}

} // verus!

verus! {

/// Every element above `d` moved down by one; the inverse of `shift_ge`
/// away from `d`.
pub open spec fn unshift_gt(v: Seq<u8>, d: u8) -> Seq<u8> {
    Seq::new(v.len(), |i: int| if v[i] > d { #[verifier::truncate] ((v[i] - 1) as u8) } else { v[i] })
}

/// Counting from the front: the first element contributes separately.
pub proof fn lemma_count_front(s: Seq<(u8, u8)>, b: int, w: u8)
    requires
        1 <= b <= s.len(),
    ensures
        count_lt_range(s, 0, b, w)
            == (if s[0].0 < w { 1int } else { 0int }) + count_lt_range(s, 1, b, w),
    decreases b,
{
    if b == 1 {
        assert(count_lt_range(s, 0, 0, w) == 0);
        assert(count_lt_range(s, 1, 1, w) == 0);
        assert(count_lt_range(s, 0, 1, w)
            == count_lt_range(s, 0, 0, w) + if s[0].0 < w { 1int } else { 0int });
    } else {
        lemma_count_front(s, b - 1, w);
    }
}

/// Inversion counts read only the element components.
pub proof fn lemma_count_elt_congruence(s1: Seq<(u8, u8)>, s2: Seq<(u8, u8)>, a: int, b: int, w: u8)
    requires
        0 <= a,
        b <= s1.len(),
        b <= s2.len(),
        forall|i: int| a <= i < b ==> (#[trigger] s1[i]).0 == s2[i].0,
    ensures
        count_lt_range(s1, a, b, w) == count_lt_range(s2, a, b, w),
    decreases b - a,
{
    if a < b {
        lemma_count_elt_congruence(s1, s2, a, b - 1, w);
    }
}

/// Lehmer codes read only the element components.
pub proof fn lemma_lehmer_elt_congruence(s1: Seq<(u8, u8)>, s2: Seq<(u8, u8)>, ix: int)
    requires
        s1.len() == s2.len(),
        0 <= ix,
        forall|i: int| 0 <= i < s1.len() ==> (#[trigger] s1[i]).0 == s2[i].0,
    ensures
        lehmer_from(s1, ix) == lehmer_from(s2, ix),
    decreases s1.len() - ix,
{
    if ix < s1.len() - 1 {
        lemma_lehmer_elt_congruence(s1, s2, ix + 1);
        lemma_count_elt_congruence(s1, s2, ix + 1, s1.len() as int, s1[ix].0);
        lemma_count_elt_congruence(s2, s2, ix + 1, s2.len() as int, s2[ix].0);
        assert(s1[ix].0 == s2[ix].0);
        lemma_count_elt_congruence(s1, s2, ix + 1, s1.len() as int, s2[ix].0);
    }
}

/// Decoding an encoded permutation restores its elements: the Lehmer code
/// determines the permutation.
pub proof fn lemma_p_dec_of_lehmer(s: Seq<(u8, u8)>, k: nat)
    requires
        1 <= k <= 12,
        s.len() == k,
        forall|i: int| 0 <= i < k ==> (#[trigger] s[i]).0 < k,
        forall|i: int, j: int| 0 <= i < j < k ==> s[i].0 != s[j].0,
    ensures
        0 <= lehmer(s) < fact(k),
        forall|i: int| 0 <= i < k ==> (#[trigger] p_dec(lehmer(s), k)[i]) == s[i].0,
    decreases k,
{
    crate::definitions::lemma_lehmer_from_bound(s, 0);
    let t = lehmer(s);
    if k == 1 {
        crate::util::lemma_fact_small();
        assert(t == 0);
        assert(p_dec(0, 1) == seq![0u8]);
        assert(s[0].0 == 0);
    } else {
        let d = s[0].0;
        lemma_fact_positive((k - 1) as nat);
        let f = fact((k - 1) as nat) as int;
        // the leading inversion count is the first element itself
        let vs = Seq::new(k, |i: int| s[i].0);
        assert(count_lt_range(s, 1, k as int, d) == d) by {
            lemma_count_front(s, k as int, d);
            lemma_count_elt_congruence(s, pairs_of(vs), 0, k as int, d);
            lemma_count_lt_full(vs, k, d);
        }
        crate::definitions::lemma_lehmer_from_bound(s, 1);
        assert(lehmer_from(s, 0)
            == count_lt_range(s, 1, k as int, d) * fact((k - 1) as nat) + lehmer_from(s, 1));
        assert(count_lt_range(s, 1, k as int, d) * fact((k - 1) as nat) == d * f)
            by (nonlinear_arith)
            requires count_lt_range(s, 1, k as int, d) == d, fact((k - 1) as nat) == f;
        vstd::arithmetic::div_mod::lemma_fundamental_div_mod_converse(
            t, f, d as int, lehmer_from(s, 1));
        assert(t / f == d);
        assert(t % f == lehmer_from(s, 1));
        // the tail, with the leading element's gap closed
        let tv = Seq::new((k - 1) as nat, |i: int| s[i + 1].0);
        let sv = unshift_gt(tv, d);
        assert forall|i: int| 0 <= i < k - 1 implies (#[trigger] tv[i]) != d by {
            assert(s[0].0 != s[i + 1].0);
        }
        assert forall|i: int| 0 <= i < k - 1 implies (#[trigger] sv[i]) < k - 1 by {
            if tv[i] > d {
            } else {
                assert(tv[i] < d);
                assert(d < k);
            }
        }
        assert forall|i: int, j: int| 0 <= i < j < k - 1 implies sv[i] != sv[j] by {
            assert(tv[i] != tv[j]);
            assert(tv[i] != d && tv[j] != d);
        }
        assert forall|i: int| 0 <= i < k - 1 implies (#[trigger] shift_ge(sv, d)[i]) == tv[i] by {
            if tv[i] > d {
                assert(sv[i] == tv[i] - 1);
                assert(sv[i] >= d);
            } else {
                assert(sv[i] == tv[i] && tv[i] < d);
            }
        }
        // the tail's code survives prepending, re-pairing, and the shift
        let ps = pairs_of(tv);
        let s2 = seq![s[0]].add(ps);
        assert(lehmer_from(s, 1) == lehmer_from(s2, 1)) by {
            assert(s2.len() == k);
            assert(forall|i: int| 0 <= i < k ==> (#[trigger] s2[i]).0 == s[i].0);
            lemma_lehmer_elt_congruence(s, s2, 1);
        }
        lemma_lehmer_from_prepend(s[0], ps, 0);
        assert(pairs_of(shift_ge(sv, d)) =~= ps) by {
            assert(shift_ge(sv, d) =~= tv);
        }
        lemma_lehmer_shift(sv, d, 0);
        assert(lehmer_from(pairs_of(sv), 0) == t % f);
        // the smaller permutation decodes back by induction
        lemma_p_dec_of_lehmer(pairs_of(sv), (k - 1) as nat);
        crate::definitions::lemma_lehmer_from_bound(pairs_of(sv), 0);
        lemma_p_dec_permseq(t % f, (k - 1) as nat);
        assert(p_dec(t % f, (k - 1) as nat) =~= sv) by {
            assert forall|i: int| 0 <= i < k - 1
                implies (#[trigger] p_dec(t % f, (k - 1) as nat)[i]) == sv[i] by {
                assert(p_dec(lehmer(pairs_of(sv)), (k - 1) as nat)[i] == pairs_of(sv)[i].0);
            }
        }
        // assemble the whole decode
        assert(p_dec(t, k) == seq![d].add(shift_ge(p_dec(t % f, (k - 1) as nat), d)));
        assert forall|i: int| 0 <= i < k implies (#[trigger] p_dec(t, k)[i]) == s[i].0 by {
            if i == 0 {
            } else {
                assert(p_dec(t, k)[i] == shift_ge(sv, d)[i - 1]);
                assert(shift_ge(sv, d)[i - 1] == tv[i - 1]);
            }
        }
    }
}

} // verus!

verus! {

/// One table step and its inverse step cancel at the permutation
/// coordinate level.
pub proof fn lemma_p_step_cancels(c: int, g1: Seq<(u8, u8)>, g2: Seq<(u8, u8)>, n: nat, m: u8)
    requires
        1 <= n <= 12,
        m >= 1,
        0 <= c < fact(n),
        is_valid(g1, n, m),
        is_valid(g2, n, m),
        compose(g1, g2, m) == crate::definitions::id_seq(n),
    ensures
        lehmer(compose(p_canon(lehmer(compose(p_canon(c, n), g1, m)), n), g2, m)) == c,
{
    let a = p_canon(c, n);
    lemma_p_dec_permseq(c, n);
    assert(is_valid(a, n, m));
    lemma_p_canon_round_trip(c, n);
    let x = compose(a, g1, m);
    lemma_compose_valid(a, g1, n, m);
    let c1 = lehmer(x);
    crate::definitions::lemma_lehmer_from_bound(x, 0);
    let y = p_canon(c1, n);
    lemma_p_dec_permseq(c1, n);
    lemma_p_dec_of_lehmer(x, n);
    assert forall|i: int| 0 <= i < n implies (#[trigger] y[i]).0 == x[i].0 by {
        assert(y[i].0 == p_dec(c1, n)[i]);
    }
    assert forall|i: int| 0 <= i < n
        implies (#[trigger] compose(y, g2, m)[i]).0 == compose(x, g2, m)[i].0 by {
        assert(y[g2[i].0 as int].0 == x[g2[i].0 as int].0);
    }
    lemma_lehmer_elt_congruence(compose(y, g2, m), compose(x, g2, m), 0);
    lemma_compose_assoc(a, g1, g2, n, m);
    lemma_compose_identity_right(a, n, m);
}

} // verus!

verus! {

use crate::definitions::lemma_c_dec_props;

/// How many of the first `ix + 1` positions hold a high element.
pub open spec fn high_count(s: Seq<(u8, u8)>, ix: int, h: u8) -> int
    decreases ix + 1,
{
    if ix < 0 {
        0
    } else {
        high_count(s, ix - 1, h) + if s[ix].0 >= h { 1int } else { 0int }
    }
}

/// A high count lies between zero and the number of positions counted.
pub proof fn lemma_high_count_bounds(s: Seq<(u8, u8)>, ix: int, h: u8)
    requires
        ix >= -1,
    ensures
        0 <= high_count(s, ix, h) <= ix + 1,
    decreases ix + 1,
{
    if ix >= 0 {
        lemma_high_count_bounds(s, ix - 1, h);
    }
}

/// High positions are the complement of the low count.
pub proof fn lemma_high_count_vs_low(s: Seq<(u8, u8)>, ix: int, h: u8)
    requires
        -1 <= ix < s.len(),
    ensures
        high_count(s, ix, h) == (ix + 1) - count_lt_range(s, 0, ix + 1, h),
    decreases ix + 1,
{
    if ix >= 0 {
        lemma_high_count_vs_low(s, ix - 1, h);
    }
}

/// The rank contribution reads only the high/low pattern.
pub proof fn lemma_c_val_pattern_congruence(
    s1: Seq<(u8, u8)>,
    s2: Seq<(u8, u8)>,
    ix: int,
    r: nat,
    h: u8,
)
    requires
        forall|j: int| 0 <= j <= ix ==> ((#[trigger] s1[j]).0 >= h <==> s2[j].0 >= h),
    ensures
        c_val_from(s1, ix, r, h) == c_val_from(s2, ix, r, h),
    decreases ix + 1,
{
    if ix >= 0 {
        if s1[ix].0 >= h && r >= 1 {
            lemma_c_val_pattern_congruence(s1, s2, ix - 1, (r - 1) as nat, h);
        } else {
            lemma_c_val_pattern_congruence(s1, s2, ix - 1, r, h);
        }
    }
}

/// Decoding an encoded combination restores the high/low pattern: the rank
/// determines which positions hold high elements.
pub proof fn lemma_c_pattern_round_trip(s: Seq<(u8, u8)>, ix: int, r: nat, h: u8)
    requires
        ix >= -1,
        high_count(s, ix, h) == r,
        ix + 1 - r <= h,
        h + r <= 254,
    ensures
        0 <= c_val_from(s, ix, r, h) < binom((ix + 1) as nat, r),
        forall|j: int| 0 <= j <= ix
            ==> ((#[trigger] c_dec(c_val_from(s, ix, r, h), ix, r, h)[j]) >= h <==> s[j].0 >= h),
    decreases ix + 1,
{
    crate::definitions::lemma_c_val_from_bound(s, ix, r, h);
    let t = c_val_from(s, ix, r, h);
    if ix < 0 {
        assert(r == 0);
        assert(binom(0, 0) == 1);
    } else if s[ix].0 >= h && r >= 1 {
        assert(high_count(s, ix - 1, h) == r - 1);
        lemma_c_pattern_round_trip(s, ix - 1, (r - 1) as nat, h);
        let b = binom(ix as nat, r);
        let tp = c_val_from(s, ix - 1, (r - 1) as nat, h);
        assert(t == b + tp);
        assert(binom((ix + 1) as nat, r)
            == binom(ix as nat, (r - 1) as nat) + binom(ix as nat, r));
        assert(t >= b);
        assert(c_dec(t, ix, r, h)
            == c_dec(t - b, ix - 1, (r - 1) as nat, h).push(((h + r - 1)) as u8));
        lemma_c_dec_props(tp, ix - 1, (r - 1) as nat, h);
        assert forall|j: int| 0 <= j <= ix
            implies ((#[trigger] c_dec(t, ix, r, h)[j]) >= h <==> s[j].0 >= h) by {
            if j < ix {
                assert(c_dec(t, ix, r, h)[j] == c_dec(tp, ix - 1, (r - 1) as nat, h)[j]);
            } else {
                assert(c_dec(t, ix, r, h)[ix] == (h + r - 1) as u8);
            }
        }
    } else {
        assert(s[ix].0 < h) by {
            if s[ix].0 >= h {
                lemma_high_count_bounds(s, ix - 1, h);
                assert(high_count(s, ix, h) >= 1);
            }
        }
        assert(high_count(s, ix - 1, h) == r);
        lemma_high_count_bounds(s, ix - 1, h);
        assert(r <= ix);
        lemma_c_pattern_round_trip(s, ix - 1, r, h);
        let b = binom(ix as nat, r);
        assert(t == c_val_from(s, ix - 1, r, h));
        assert(t < b) by {
            if r == 0 {
                assert(binom(ix as nat, 0) == 1);
                assert(binom((ix - 1 + 1) as nat, 0) == 1);
            }
        }
        assert(binom((ix + 1) as nat, r) >= b) by {
            if r >= 1 {
                assert(binom((ix + 1) as nat, r)
                    == binom(ix as nat, (r - 1) as nat) + binom(ix as nat, r));
                crate::definitions::lemma_binom_positive(ix as nat, (r - 1) as nat);
            }
        }
        assert(c_dec(t, ix, r, h) == c_dec(t, ix - 1, r, h).push(((ix - r)) as u8));
        lemma_c_dec_props(t, ix - 1, r, h);
        assert forall|j: int| 0 <= j <= ix
            implies ((#[trigger] c_dec(t, ix, r, h)[j]) >= h <==> s[j].0 >= h) by {
            if j < ix {
                assert(c_dec(t, ix, r, h)[j] == c_dec(t, ix - 1, r, h)[j]);
            } else {
                assert(c_dec(t, ix, r, h)[ix] == (ix - r) as u8);
                assert(ix - r < h);
            }
        }
    }
}

} // verus!

verus! {

/// One table step and its inverse step cancel at the combination
/// coordinate level.
pub proof fn lemma_c_step_cancels(c: int, g1: Seq<(u8, u8)>, g2: Seq<(u8, u8)>, n: nat, k: nat, m: u8)
    requires
        1 <= k <= n <= 12,
        m >= 1,
        0 <= c < binom(n, k),
        is_valid(g1, n, m),
        is_valid(g2, n, m),
        compose(g1, g2, m) == crate::definitions::id_seq(n),
    ensures
        c_val(compose(c_canon(c_val(compose(c_canon(c, n, k), g1, m), n, k), n, k), g2, m), n, k)
            == c,
{
    let h = (n - k) as u8;
    let a = c_canon(c, n, k);
    lemma_c_dec_props(c, n as int - 1, k, h);
    assert(is_valid(a, n, m)) by {
        assert(forall|i: int| 0 <= i < n ==> (#[trigger] a[i]).1 == 0);
        assert(forall|i: int| 0 <= i < n
            ==> (#[trigger] a[i]).0 == c_dec(c, n as int - 1, k, h)[i]);
    }
    lemma_c_canon_round_trip(c, n, k);
    let x = compose(a, g1, m);
    lemma_compose_valid(a, g1, n, m);
    // the composed array still holds exactly k high elements
    let vx = Seq::new(n, |i: int| x[i].0);
    lemma_count_elt_congruence(x, pairs_of(vx), 0, n as int, h);
    lemma_count_lt_full(vx, n, h);
    lemma_high_count_vs_low(x, n as int - 1, h);
    assert(high_count(x, n as int - 1, h) == k);
    let c1 = c_val(x, n, k);
    lemma_c_pattern_round_trip(x, n as int - 1, k, h);
    assert(0 <= c1 < binom(n, k));
    let y = c_canon(c1, n, k);
    lemma_c_dec_props(c1, n as int - 1, k, h);
    assert forall|j: int| 0 <= j < n implies ((#[trigger] y[j]).0 >= h <==> x[j].0 >= h) by {
        assert(y[j].0 == c_dec(c1, n as int - 1, k, h)[j]);
    }
    assert forall|i: int| 0 <= i < n
        implies ((#[trigger] compose(y, g2, m)[i]).0 >= h <==> compose(x, g2, m)[i].0 >= h) by {
        let j = g2[i].0 as int;
        assert(y[j].0 >= h <==> x[j].0 >= h);
    }
    lemma_c_val_pattern_congruence(compose(y, g2, m), compose(x, g2, m), n as int - 1, k, h);
    lemma_compose_assoc(a, g1, g2, n, m);
    lemma_compose_identity_right(a, n, m);
}

} // verus!

verus! {

use crate::kociemba::phase2 as p2;

/// The index of the phase-2 generator that undoes the phase-2 generator
/// with index `g`.
pub open spec fn inverse_index2(g: int) -> int {
    if g == 0 { 2 } else if g == 1 { 1 } else if g == 2 { 0 }
    else if g == 3 { 5 } else if g == 4 { 4 } else if g == 5 { 3 }
    else { g }
}

/// Every phase-2 generator's arrays are valid cubie arrays.
pub proof fn lemma_p2_moves_valid(ix: int)
    requires
        0 <= ix < 10,
    ensures
        is_valid(p2::corner_move_seq(ix), 8, 1),
        is_valid(p2::edge_move_seq(ix), 8, 1),
        is_valid(p2::slice_move_seq(ix), 4, 1),
{
}

/// Every phase-2 generator cancels against its indexed inverse, on all
/// three of its arrays.
#[verifier::rlimit(100)]
pub proof fn lemma_p2_generator_cancellation(ix: int)
    requires
        0 <= ix < 10,
    ensures
        compose(p2::corner_move_seq(ix), p2::corner_move_seq(inverse_index2(ix)), 1)
            == crate::definitions::id_seq(8),
        compose(p2::edge_move_seq(ix), p2::edge_move_seq(inverse_index2(ix)), 1)
            == crate::definitions::id_seq(8),
        compose(p2::slice_move_seq(ix), p2::slice_move_seq(inverse_index2(ix)), 1)
            == crate::definitions::id_seq(4),
{
    if ix == 0 {
        assert(compose(p2::corner_move_seq(0), p2::corner_move_seq(2), 1) =~= crate::definitions::id_seq(8));
        assert(compose(p2::edge_move_seq(0), p2::edge_move_seq(2), 1) =~= crate::definitions::id_seq(8));
        assert(compose(p2::slice_move_seq(0), p2::slice_move_seq(2), 1) =~= crate::definitions::id_seq(4));
    }
    if ix == 1 {
        assert(compose(p2::corner_move_seq(1), p2::corner_move_seq(1), 1) =~= crate::definitions::id_seq(8));
        assert(compose(p2::edge_move_seq(1), p2::edge_move_seq(1), 1) =~= crate::definitions::id_seq(8));
        assert(compose(p2::slice_move_seq(1), p2::slice_move_seq(1), 1) =~= crate::definitions::id_seq(4));
    }
    if ix == 2 {
        assert(compose(p2::corner_move_seq(2), p2::corner_move_seq(0), 1) =~= crate::definitions::id_seq(8));
        assert(compose(p2::edge_move_seq(2), p2::edge_move_seq(0), 1) =~= crate::definitions::id_seq(8));
        assert(compose(p2::slice_move_seq(2), p2::slice_move_seq(0), 1) =~= crate::definitions::id_seq(4));
    }
    if ix == 3 {
        assert(compose(p2::corner_move_seq(3), p2::corner_move_seq(5), 1) =~= crate::definitions::id_seq(8));
        assert(compose(p2::edge_move_seq(3), p2::edge_move_seq(5), 1) =~= crate::definitions::id_seq(8));
        assert(compose(p2::slice_move_seq(3), p2::slice_move_seq(5), 1) =~= crate::definitions::id_seq(4));
    }
    if ix == 4 {
        assert(compose(p2::corner_move_seq(4), p2::corner_move_seq(4), 1) =~= crate::definitions::id_seq(8));
        assert(compose(p2::edge_move_seq(4), p2::edge_move_seq(4), 1) =~= crate::definitions::id_seq(8));
        assert(compose(p2::slice_move_seq(4), p2::slice_move_seq(4), 1) =~= crate::definitions::id_seq(4));
    }
    if ix == 5 {
        assert(compose(p2::corner_move_seq(5), p2::corner_move_seq(3), 1) =~= crate::definitions::id_seq(8));
        assert(compose(p2::edge_move_seq(5), p2::edge_move_seq(3), 1) =~= crate::definitions::id_seq(8));
        assert(compose(p2::slice_move_seq(5), p2::slice_move_seq(3), 1) =~= crate::definitions::id_seq(4));
    }
    if ix == 6 {
        assert(compose(p2::corner_move_seq(6), p2::corner_move_seq(6), 1) =~= crate::definitions::id_seq(8));
        assert(compose(p2::edge_move_seq(6), p2::edge_move_seq(6), 1) =~= crate::definitions::id_seq(8));
        assert(compose(p2::slice_move_seq(6), p2::slice_move_seq(6), 1) =~= crate::definitions::id_seq(4));
    }
    if ix == 7 {
        assert(compose(p2::corner_move_seq(7), p2::corner_move_seq(7), 1) =~= crate::definitions::id_seq(8));
        assert(compose(p2::edge_move_seq(7), p2::edge_move_seq(7), 1) =~= crate::definitions::id_seq(8));
        assert(compose(p2::slice_move_seq(7), p2::slice_move_seq(7), 1) =~= crate::definitions::id_seq(4));
    }
    if ix == 8 {
        assert(compose(p2::corner_move_seq(8), p2::corner_move_seq(8), 1) =~= crate::definitions::id_seq(8));
        assert(compose(p2::edge_move_seq(8), p2::edge_move_seq(8), 1) =~= crate::definitions::id_seq(8));
        assert(compose(p2::slice_move_seq(8), p2::slice_move_seq(8), 1) =~= crate::definitions::id_seq(4));
    }
    if ix == 9 {
        assert(compose(p2::corner_move_seq(9), p2::corner_move_seq(9), 1) =~= crate::definitions::id_seq(8));
        assert(compose(p2::edge_move_seq(9), p2::edge_move_seq(9), 1) =~= crate::definitions::id_seq(8));
        assert(compose(p2::slice_move_seq(9), p2::slice_move_seq(9), 1) =~= crate::definitions::id_seq(4));
    }
}

} // verus!

verus! {

/// The transition tables a phase-1 build produces are closed under
/// inverses: every face turn's column is undone by its indexed inverse's
/// column.
pub proof fn lemma_phase1_tables_inverse_closed(td: &phase1::Table)
    requires
        td.wf(),
    ensures
        table_has_inverses(td.corners),
        table_has_inverses(td.edges),
        table_has_inverses(td.slice),
{
    phase1::lemma_co_size();
    phase1::lemma_slice_size();
    assert forall|g: int| 0 <= g < td.corners.gens_spec()
        implies #[trigger] has_inverse(td.corners, g) by {
        let g2 = inverse_index(g);
        assert(is_inverse_gen(td.corners, g, g2)) by {
            assert forall|c: int| 0 <= c < td.corners.size_spec()
                implies td.corners.entry(#[trigger] td.corners.entry(c, g), g2) == c by {
                lemma_move_seq_valid(g);
                lemma_move_seq_valid(g2);
                lemma_generator_zero_sum(g);
                lemma_generator_cancellation(g);
                lemma_o_step_cancels(c, corner_move_seq(g), corner_move_seq(g2), 8, 3);
                assert(td.corners.entry(c, g) == phase1::co_step(c, g));
            }
        }
    }
    assert forall|g: int| 0 <= g < td.edges.gens_spec()
        implies #[trigger] has_inverse(td.edges, g) by {
        let g2 = inverse_index(g);
        assert(is_inverse_gen(td.edges, g, g2)) by {
            assert forall|c: int| 0 <= c < td.edges.size_spec()
                implies td.edges.entry(#[trigger] td.edges.entry(c, g), g2) == c by {
                lemma_move_seq_valid(g);
                lemma_move_seq_valid(g2);
                lemma_generator_zero_sum(g);
                lemma_generator_cancellation(g);
                lemma_o_step_cancels(c, edge_move_seq(g), edge_move_seq(g2), 12, 2);
                assert(td.edges.entry(c, g) == phase1::eo_step(c, g));
            }
        }
    }
    assert forall|g: int| 0 <= g < td.slice.gens_spec()
        implies #[trigger] has_inverse(td.slice, g) by {
        let g2 = inverse_index(g);
        assert(is_inverse_gen(td.slice, g, g2)) by {
            assert forall|c: int| 0 <= c < td.slice.size_spec()
                implies td.slice.entry(#[trigger] td.slice.entry(c, g), g2) == c by {
                lemma_move_seq_valid(g);
                lemma_move_seq_valid(g2);
                lemma_generator_cancellation(g);
                lemma_c_step_cancels(c, edge_move_seq(g), edge_move_seq(g2), 12, 4, 2);
                assert(td.slice.entry(c, g) == phase1::slice_step(c, g));
            }
        }
    }
}

/// The transition tables a phase-2 build produces are closed under
/// inverses.
pub proof fn lemma_phase2_tables_inverse_closed(td: &phase2::Table)
    requires
        td.wf(),
    ensures
        table_has_inverses(td.corners),
        table_has_inverses(td.edges),
        table_has_inverses(td.slice),
{
    phase2::lemma_p2_sizes();
    assert forall|g: int| 0 <= g < td.corners.gens_spec()
        implies #[trigger] has_inverse(td.corners, g) by {
        let g2 = inverse_index2(g);
        assert(is_inverse_gen(td.corners, g, g2)) by {
            assert forall|c: int| 0 <= c < td.corners.size_spec()
                implies td.corners.entry(#[trigger] td.corners.entry(c, g), g2) == c by {
                lemma_p2_moves_valid(g);
                lemma_p2_moves_valid(g2);
                lemma_p2_generator_cancellation(g);
                lemma_p_step_cancels(c, p2::corner_move_seq(g), p2::corner_move_seq(g2), 8, 1);
                assert(td.corners.entry(c, g) == p2::cp_step(c, g));
            }
        }
    }
    assert forall|g: int| 0 <= g < td.edges.gens_spec()
        implies #[trigger] has_inverse(td.edges, g) by {
        let g2 = inverse_index2(g);
        assert(is_inverse_gen(td.edges, g, g2)) by {
            assert forall|c: int| 0 <= c < td.edges.size_spec()
                implies td.edges.entry(#[trigger] td.edges.entry(c, g), g2) == c by {
                lemma_p2_moves_valid(g);
                lemma_p2_moves_valid(g2);
                lemma_p2_generator_cancellation(g);
                lemma_p_step_cancels(c, p2::edge_move_seq(g), p2::edge_move_seq(g2), 8, 1);
                assert(td.edges.entry(c, g) == p2::ep_step(c, g));
            }
        }
    }
    assert forall|g: int| 0 <= g < td.slice.gens_spec()
        implies #[trigger] has_inverse(td.slice, g) by {
        let g2 = inverse_index2(g);
        assert(is_inverse_gen(td.slice, g, g2)) by {
            assert forall|c: int| 0 <= c < td.slice.size_spec()
                implies td.slice.entry(#[trigger] td.slice.entry(c, g), g2) == c by {
                lemma_p2_moves_valid(g);
                lemma_p2_moves_valid(g2);
                lemma_p2_generator_cancellation(g);
                lemma_p_step_cancels(c, p2::slice_move_seq(g), p2::slice_move_seq(g2), 4, 1);
                assert(td.slice.entry(c, g) == p2::sp_step(c, g));
            }
        }
    }
}

/// The heuristics of both phases are admissible for the tables the library
/// itself builds: each never exceeds the length of any solving sequence of
/// its phase, so both searches return shortest phase solutions and their
/// failures are definitive.
pub proof fn lemma_generated_tables_admissible(t: &crate::kociemba::Tables)
    requires
        crate::kociemba::tables_wf(t),
    ensures
        admissible::<phase1::Cube>(&t.1, &t.0),
        admissible::<phase2::Cube>(&t.3, &t.2),
{
    lemma_phase1_tables_inverse_closed(&t.0);
    lemma_phase2_tables_inverse_closed(&t.2);
    lemma_phase1_admissible(&t.1, &t.0);
    lemma_phase2_admissible(&t.3, &t.2);
}

} // verus!

verus! {

use crate::kociemba::{project1_spec, edges_in_g1};
use crate::puzzle::cube3x3::apply_spec;

/// The zero orientation coordinate of a zero-sum array means every single
/// orientation is zero.
pub proof fn lemma_zero_o_val_zero_oris(s: Seq<(u8, u8)>, n: nat, m: u8)
    requires
        is_valid(s, n, m),
        n >= 1,
        m >= 1,
        o_sum(s) % (m as int) == 0,
        o_val(s, m) == 0,
    ensures
        forall|i: int| 0 <= i < n ==> (#[trigger] s[i]).1 == 0,
{
    lemma_o_canon_oris(s, n, m);
    lemma_o_dec_zero((n - 1) as nat, m);
    crate::definitions::lemma_o_dec_len(0, (n - 1) as nat, m);
    assert forall|i: int| 0 <= i < n implies (#[trigger] s[i]).1 == 0 by {
        assert(s[i].1 == o_canon(0, n, m)[i].1);
        if i < n - 1 {
            assert(o_canon(0, n, m)[i].1 == o_dec(0, (n - 1) as nat, m)[i]);
        } else {
            lemma_digit_sum_of_zeros(o_dec(0, (n - 1) as nat, m));
            vstd::arithmetic::div_mod::lemma_small_mod(0, m as nat);
            vstd::arithmetic::div_mod::lemma_mod_self_0(m as int);
        }
    }
}

/// The digits of zero are zero.
pub proof fn lemma_o_dec_zero(k: nat, m: u8)
    requires
        m >= 1,
    ensures
        forall|i: int| 0 <= i < k ==> (#[trigger] o_dec(0, k, m)[i]) == 0,
    decreases k,
{
    if k > 0 {
        vstd::arithmetic::div_mod::lemma_div_basics(0);
        vstd::arithmetic::div_mod::lemma_small_mod(0, m as nat);
        assert(0int / (m as int) == 0) by (nonlinear_arith)
            requires m >= 1;
        lemma_o_dec_zero((k - 1) as nat, m);
        crate::definitions::lemma_o_dec_len(0, (k - 1) as nat, m);
        assert forall|i: int| 0 <= i < k implies (#[trigger] o_dec(0, k, m)[i]) == 0 by {
            if i < k - 1 {
                assert(o_dec(0, k, m)[i] == o_dec(0, (k - 1) as nat, m)[i]);
            }
        }
    }
}

/// A sum of zero digits is zero.
pub proof fn lemma_digit_sum_of_zeros(d: Seq<u8>)
    requires
        forall|i: int| 0 <= i < d.len() ==> (#[trigger] d[i]) == 0,
    ensures
        digit_sum(d) == 0,
    decreases d.len(),
{
    if d.len() > 0 {
        lemma_digit_sum_of_zeros(d.drop_last());
    }
}

/// One face turn moves the phase-1 projection by one table step: the
/// projection is a homomorphism from real cube states onto the coordinate
/// triple, for every zero-sum state.
pub proof fn lemma_project1_step(corners: Seq<(u8, u8)>, edges: Seq<(u8, u8)>, g: int)
    requires
        is_valid(corners, 8, 3),
        is_valid(edges, 12, 2),
        o_sum(corners) % 3 == 0,
        o_sum(edges) % 2 == 0,
        0 <= g < 18,
    ensures
        o_val(compose(corners, corner_move_seq(g), 3), 3)
            == phase1::co_step(o_val(corners, 3), g),
        o_val(compose(edges, edge_move_seq(g), 2), 2)
            == phase1::eo_step(o_val(edges, 2), g),
        c_val(compose(edges, edge_move_seq(g), 2), 12, 4)
            == phase1::slice_step(c_val(edges, 12, 4), g),
{
    lemma_move_seq_valid(g);
    // corner orientations: the canonical decode has the same orientations
    crate::definitions::lemma_o_val_prefix_bound(corners, 7, 3);
    lemma_o_canon_oris(corners, 8, 3);
    lemma_o_val_compose_congruence(
        o_canon(o_val(corners, 3), 8, 3), corners, corner_move_seq(g), 8, 3);
    // edge orientations likewise
    crate::definitions::lemma_o_val_prefix_bound(edges, 11, 2);
    lemma_o_canon_oris(edges, 12, 2);
    lemma_o_val_compose_congruence(
        o_canon(o_val(edges, 2), 12, 2), edges, edge_move_seq(g), 12, 2);
    // slice: the canonical decode has the same high/low pattern
    let h = 8u8;
    let ve = Seq::new(12, |i: int| edges[i].0);
    lemma_count_elt_congruence(edges, pairs_of(ve), 0, 12, h);
    lemma_count_lt_full(ve, 12, h);
    lemma_high_count_vs_low(edges, 11, h);
    lemma_c_pattern_round_trip(edges, 11, 4, h);
    let c1 = c_val(edges, 12, 4);
    let y = c_canon(c1, 12, 4);
    lemma_c_dec_props(c1, 11, 4, h);
    assert forall|j: int| 0 <= j < 12 implies ((#[trigger] y[j]).0 >= h <==> edges[j].0 >= h) by {
        assert(y[j].0 == c_dec(c1, 11, 4, h)[j]);
    }
    let mv = edge_move_seq(g);
    assert forall|i: int| 0 <= i < 12
        implies ((#[trigger] compose(y, mv, 2)[i]).0 >= h <==> compose(edges, mv, 2)[i].0 >= h) by {
        let j = mv[i].0 as int;
        assert(y[j].0 >= h <==> edges[j].0 >= h);
    }
    lemma_c_val_pattern_congruence(compose(y, mv, 2), compose(edges, mv, 2), 11, 4, h);
}

} // verus!

verus! {

/// Following phase-1 edges at the coordinate level mirrors applying the
/// same face turns to the cube: the projection commutes with every move
/// sequence.
pub proof fn lemma_project1_follow(
    corners: Seq<(u8, u8)>,
    edges: Seq<(u8, u8)>,
    td: &phase1::Table,
    ts: Seq<Htm>,
    m1: Seq<usize>,
)
    requires
        td.wf(),
        is_valid(corners, 8, 3),
        is_valid(edges, 12, 2),
        o_sum(corners) % 3 == 0,
        o_sum(edges) % 2 == 0,
        ts.len() == m1.len(),
        crate::search::edges_ok::<phase1::Cube>(td, m1),
        forall|i: int| 0 <= i < ts.len() ==> (#[trigger] ts[i]).idx() == m1[i],
    ensures
        crate::search::follow(project1_spec(corners, edges), td, m1)
            == project1_spec(
                apply_seq_spec(corners, edges, ts).0,
                apply_seq_spec(corners, edges, ts).1,
            ),
    decreases ts.len(),
{
    phase1::lemma_co_size();
    phase1::lemma_slice_size();
    crate::definitions::lemma_o_val_prefix_bound(corners, 7, 3);
    crate::definitions::lemma_o_val_prefix_bound(edges, 11, 2);
    crate::definitions::lemma_c_val_from_bound(edges, 11, 4, 8);
    if ts.len() == 0 {
    } else {
        let g = m1[0] as int;
        let s1 = project1_spec(corners, edges);
        crate::definitions::lemma_o_coord_spec_view::<8, 3>(o_val(corners, 3));
        crate::definitions::lemma_o_coord_spec_view::<12, 2>(o_val(edges, 2));
        crate::definitions::lemma_c_coord_spec_view::<12, 4>(c_val(edges, 12, 4));
        assert(s1.corners@ == o_val(corners, 3));
        assert(s1.edges@ == o_val(edges, 2));
        assert(s1.slice@ == c_val(edges, 12, 4));
        lemma_project1_step(corners, edges, g);
        lemma_move_seq_valid(g);
        lemma_generator_zero_sum(g);
        let c2 = compose(corners, corner_move_seq(g), 3);
        let e2 = compose(edges, edge_move_seq(g), 2);
        lemma_compose_valid(corners, corner_move_seq(g), 8, 3);
        lemma_compose_valid(edges, edge_move_seq(g), 12, 2);
        lemma_compose_preserves_zero_sum(corners, corner_move_seq(g), 8, 3);
        lemma_compose_preserves_zero_sum(edges, edge_move_seq(g), 12, 2);
        // the one-step table move equals the one-turn projection
        assert(td.corners.entry(s1.corners@, g) == phase1::co_step(s1.corners@, g));
        assert(td.edges.entry(s1.edges@, g) == phase1::eo_step(s1.edges@, g));
        assert(td.slice.entry(s1.slice@, g) == phase1::slice_step(s1.slice@, g));
        crate::definitions::lemma_o_coord_spec_view::<8, 3>(phase1::co_step(s1.corners@, g));
        crate::definitions::lemma_o_coord_spec_view::<12, 2>(phase1::eo_step(s1.edges@, g));
        crate::definitions::lemma_c_coord_spec_view::<12, 4>(phase1::slice_step(s1.slice@, g));
        crate::definitions::lemma_o_coord_eq(
            s1.step_spec(td, g).corners, project1_spec(c2, e2).corners);
        crate::definitions::lemma_o_coord_eq(
            s1.step_spec(td, g).edges, project1_spec(c2, e2).edges);
        crate::definitions::lemma_c_coord_eq(
            s1.step_spec(td, g).slice, project1_spec(c2, e2).slice);
        assert(s1.step_spec(td, g) == project1_spec(c2, e2));
        // the turn applied to the cube is the same move
        assert(apply_spec(corners, edges, ts[0]) == (c2, e2));
        assert(edges_ok::<phase1::Cube>(td, m1.skip(1))) by {
            assert(forall|i: int| 0 <= i < m1.skip(1).len()
                ==> #[trigger] m1.skip(1)[i] == m1[i + 1]);
        }
        assert(forall|i: int| 0 <= i < ts.skip(1).len()
            ==> (#[trigger] ts.skip(1)[i]) == ts[i + 1]);
        lemma_project1_follow(c2, e2, td, ts.skip(1), m1.skip(1));
        assert(apply_seq_spec(corners, edges, ts)
            == apply_seq_spec(c2, e2, ts.skip(1)));
    }
}

/// A phase-1 solution really does what the phase promises: applying its
/// turns to the cube zeroes every corner and edge orientation and brings
/// the four middle-slice edges into the slice, so the resulting state lies
/// in the phase-2 subgroup.
pub proof fn lemma_phase1_solution_orients(
    corners: Seq<(u8, u8)>,
    edges: Seq<(u8, u8)>,
    td: &phase1::Table,
    ts: Seq<Htm>,
    m1: Seq<usize>,
)
    requires
        td.wf(),
        is_valid(corners, 8, 3),
        is_valid(edges, 12, 2),
        o_sum(corners) % 3 == 0,
        o_sum(edges) % 2 == 0,
        ts.len() == m1.len(),
        forall|i: int| 0 <= i < ts.len() ==> (#[trigger] ts[i]).idx() == m1[i],
        crate::search::is_solution(project1_spec(corners, edges), td, m1),
    ensures
        ({
            let mid = apply_seq_spec(corners, edges, ts);
            &&& forall|i: int| 0 <= i < 8 ==> (#[trigger] mid.0[i]).1 == 0
            &&& forall|i: int| 0 <= i < 12 ==> (#[trigger] mid.1[i]).1 == 0
            &&& edges_in_g1(mid.1)
            &&& is_valid(mid.0, 8, 3)
            &&& is_valid(mid.1, 12, 2)
        }),
{
    phase1::lemma_co_size();
    phase1::lemma_slice_size();
    lemma_project1_follow(corners, edges, td, ts, m1);
    lemma_apply_seq_zero_sum(corners, edges, ts);
    let mid = apply_seq_spec(corners, edges, ts);
    let end = project1_spec(mid.0, mid.1);
    assert(end.solved_spec());
    crate::definitions::lemma_o_val_prefix_bound(mid.0, 7, 3);
    crate::definitions::lemma_o_val_prefix_bound(mid.1, 11, 2);
    crate::definitions::lemma_c_val_from_bound(mid.1, 11, 4, 8);
    crate::definitions::lemma_o_coord_spec_view::<8, 3>(o_val(mid.0, 3));
    crate::definitions::lemma_o_coord_spec_view::<12, 2>(o_val(mid.1, 2));
    crate::definitions::lemma_c_coord_spec_view::<12, 4>(c_val(mid.1, 12, 4));
    assert(o_val(mid.0, 3) == 0);
    assert(o_val(mid.1, 2) == 0);
    assert(c_val(mid.1, 12, 4) == binom(12, 4) - 1);
    lemma_zero_o_val_zero_oris(mid.0, 8, 3);
    lemma_zero_o_val_zero_oris(mid.1, 12, 2);
    // the maximal combination coordinate places every slice edge in the slice
    let h = 8u8;
    let ve = Seq::new(12, |i: int| mid.1[i].0);
    lemma_count_elt_congruence(mid.1, pairs_of(ve), 0, 12, h);
    lemma_count_lt_full(ve, 12, h);
    lemma_high_count_vs_low(mid.1, 11, h);
    lemma_c_pattern_round_trip(mid.1, 11, 4, h);
    lemma_c_dec_max_pattern();
    assert forall|i: int| 8 <= i < 12 implies (#[trigger] mid.1[i]).0 >= 8 by {
        assert(c_dec(c_val(mid.1, 12, 4), 11, 4, h)[i] >= h <==> mid.1[i].0 >= h);
        assert(c_dec(binom(12, 4) - 1, 11, 4, 8)[i] >= 8);
    }
    assert forall|i: int| 0 <= i < 8 implies (#[trigger] mid.1[i]).0 < 8 by {
        assert(c_dec(c_val(mid.1, 12, 4), 11, 4, h)[i] >= h <==> mid.1[i].0 >= h);
        assert(!(c_dec(binom(12, 4) - 1, 11, 4, 8)[i] >= 8));
    }
}

/// The maximal combination coordinate decodes to the arrangement whose high
/// elements all sit at the top positions.
pub proof fn lemma_c_dec_max_pattern()
    ensures
        forall|i: int| 8 <= i < 12 ==> (#[trigger] c_dec(binom(12, 4) - 1, 11, 4, 8)[i]) >= 8,
        forall|i: int| 0 <= i < 8 ==> (#[trigger] c_dec(binom(12, 4) - 1, 11, 4, 8)[i]) < 8,
{
    phase1::lemma_slice_size();
    reveal_with_fuel(binom, 13);
    assert(binom(11, 4) == 330);
    assert(binom(10, 3) == 120);
    assert(binom(9, 2) == 36);
    assert(binom(8, 1) == 8);
    lemma_c_dec_props(0, 7, 0, 8);
    assert(c_dec(494, 11, 4, 8) == c_dec(164, 10, 3, 8).push(11u8));
    assert(c_dec(164, 10, 3, 8) == c_dec(44, 9, 2, 8).push(10u8));
    assert(c_dec(44, 9, 2, 8) == c_dec(8, 8, 1, 8).push(9u8));
    assert(c_dec(8, 8, 1, 8) == c_dec(0, 7, 0, 8).push(8u8));
    assert forall|i: int| 0 <= i < 8 implies (#[trigger] c_dec(binom(12, 4) - 1, 11, 4, 8)[i]) < 8 by {
        assert(c_dec(494, 11, 4, 8)[i] == c_dec(0, 7, 0, 8)[i]);
        assert(c_dec(0, 7, 0, 8)[i] < 8 + 0);
    }
    assert forall|i: int| 8 <= i < 12 implies (#[trigger] c_dec(binom(12, 4) - 1, 11, 4, 8)[i]) >= 8 by {
        if i == 11 {
            assert(c_dec(494, 11, 4, 8)[11] == 11u8);
        } else if i == 10 {
            assert(c_dec(494, 11, 4, 8)[10] == c_dec(164, 10, 3, 8)[10]);
        } else if i == 9 {
            assert(c_dec(494, 11, 4, 8)[9] == c_dec(44, 9, 2, 8)[9]);
        } else {
            assert(c_dec(494, 11, 4, 8)[8] == c_dec(8, 8, 1, 8)[8]);
        }
    }
}

} // verus!

verus! {

use crate::kociemba::phase2::gen_htm_index;

/// The permutation with Lehmer code zero is the identity.
pub proof fn lemma_p_dec_zero(k: nat)
    requires
        1 <= k <= 255,
    ensures
        forall|i: int| 0 <= i < k ==> (#[trigger] p_dec(0, k)[i]) == i,
    decreases k,
{
    lemma_fact_positive(k);
    lemma_p_dec_permseq(0, k);
    if k == 1 {
    } else {
        let f = fact((k - 1) as nat) as int;
        lemma_fact_positive((k - 1) as nat);
        vstd::arithmetic::div_mod::lemma_div_basics(f);
        assert(0int / f == 0) by (nonlinear_arith)
            requires f >= 1;
        vstd::arithmetic::div_mod::lemma_small_mod(0, f as nat);
        lemma_p_dec_zero((k - 1) as nat);
        lemma_p_dec_permseq(0, (k - 1) as nat);
        assert(p_dec(0, k) == seq![0u8].add(shift_ge(p_dec(0, (k - 1) as nat), 0u8)));
        assert forall|i: int| 0 <= i < k implies (#[trigger] p_dec(0, k)[i]) == i by {
            if i > 0 {
                assert(p_dec(0, k)[i] == shift_ge(p_dec(0, (k - 1) as nat), 0u8)[i - 1]);
                assert(p_dec(0, (k - 1) as nat)[i - 1] == i - 1);
            }
        }
    }
}

/// The ten phase-2 generators, seen as full-cube face turns: their corner
/// and edge arrays twist nothing, they keep the top and bottom layers and
/// the middle slice to themselves, and their restricted arrays agree with
/// the full ones position by position.
#[verifier::rlimit(100)]
pub proof fn lemma_p2_move_facts(g: int)
    requires
        0 <= g < 10,
    ensures
        forall|i: int| 0 <= i < 8
            ==> (#[trigger] corner_move_seq(gen_htm_index(g))[i]).1 == 0,
        forall|i: int| 0 <= i < 12
            ==> (#[trigger] edge_move_seq(gen_htm_index(g))[i]).1 == 0,
        forall|i: int| 0 <= i < 8
            ==> (#[trigger] corner_move_seq(gen_htm_index(g))[i]).0
                == p2::corner_move_seq(g)[i].0,
        forall|i: int| 0 <= i < 8
            ==> (#[trigger] edge_move_seq(gen_htm_index(g))[i]).0 < 8
                && edge_move_seq(gen_htm_index(g))[i].0 == p2::edge_move_seq(g)[i].0,
        forall|i: int| 8 <= i < 12
            ==> (#[trigger] edge_move_seq(gen_htm_index(g))[i]).0 >= 8
                && edge_move_seq(gen_htm_index(g))[i].0 - 8 == p2::slice_move_seq(g)[i - 8].0,
{
    if g == 0 { } else if g == 1 { } else if g == 2 { }
    else if g == 3 { } else if g == 4 { } else if g == 5 { }
    else if g == 6 { } else if g == 7 { } else if g == 8 { }
    else { }
}

} // verus!

verus! {

use crate::kociemba::{project2_spec, top_edges, slice_edges, solution_shape, htm_seq_of};

/// Applying a concatenation of turn sequences is applying the parts in
/// turn.
pub proof fn lemma_apply_seq_append(
    corners: Seq<(u8, u8)>,
    edges: Seq<(u8, u8)>,
    a: Seq<Htm>,
    b: Seq<Htm>,
)
    ensures
        apply_seq_spec(corners, edges, a.add(b))
            == apply_seq_spec(
                apply_seq_spec(corners, edges, a).0,
                apply_seq_spec(corners, edges, a).1,
                b,
            ),
    decreases a.len(),
{
    if a.len() == 0 {
        assert(a.add(b) =~= b);
    } else {
        assert(a.add(b)[0] == a[0]);
        assert(a.add(b).skip(1) =~= a.skip(1).add(b));
        let (c2, e2) = apply_spec(corners, edges, a[0]);
        lemma_apply_seq_append(c2, e2, a.skip(1), b);
    }
}

/// Following phase-2 edges at the coordinate level mirrors applying the
/// same face turns to an oriented cube in the phase-2 subgroup; the cube
/// stays oriented and in the subgroup throughout.
pub proof fn lemma_project2_follow(
    corners: Seq<(u8, u8)>,
    edges: Seq<(u8, u8)>,
    td: &phase2::Table,
    ts: Seq<Htm>,
    m2: Seq<usize>,
)
    requires
        td.wf(),
        is_valid(corners, 8, 3),
        is_valid(edges, 12, 2),
        forall|i: int| 0 <= i < 8 ==> (#[trigger] corners[i]).1 == 0,
        forall|i: int| 0 <= i < 12 ==> (#[trigger] edges[i]).1 == 0,
        edges_in_g1(edges),
        ts.len() == m2.len(),
        crate::search::edges_ok::<phase2::Cube>(td, m2),
        forall|i: int| 0 <= i < ts.len()
            ==> (#[trigger] ts[i]).idx() == gen_htm_index(m2[i] as int),
    ensures
        ({
            let end = apply_seq_spec(corners, edges, ts);
            &&& crate::search::follow(project2_spec(corners, edges), td, m2)
                == project2_spec(end.0, end.1)
            &&& is_valid(end.0, 8, 3)
            &&& is_valid(end.1, 12, 2)
            &&& forall|i: int| 0 <= i < 8 ==> (#[trigger] end.0[i]).1 == 0
            &&& forall|i: int| 0 <= i < 12 ==> (#[trigger] end.1[i]).1 == 0
            &&& edges_in_g1(end.1)
        }),
    decreases ts.len(),
{
    phase2::lemma_p2_sizes();
    let te = top_edges(edges);
    let se = slice_edges(edges);
    crate::definitions::lemma_lehmer_from_bound(corners, 0);
    crate::definitions::lemma_lehmer_from_bound(te, 0);
    crate::definitions::lemma_lehmer_from_bound(se, 0);
    crate::definitions::lemma_p_coord_spec_view::<8>(lehmer(corners));
    crate::definitions::lemma_p_coord_spec_view::<8>(lehmer(te));
    crate::definitions::lemma_p_coord_spec_view::<4>(lehmer(se));
    if ts.len() == 0 {
    } else {
        let g = m2[0] as int;
        let hix = gen_htm_index(g);
        lemma_p2_move_facts(g);
        lemma_p2_moves_valid(g);
        lemma_move_seq_valid(hix);
        let s2 = project2_spec(corners, edges);
        let c2 = compose(corners, corner_move_seq(hix), 3);
        let e2 = compose(edges, edge_move_seq(hix), 2);
        lemma_compose_valid(corners, corner_move_seq(hix), 8, 3);
        lemma_compose_valid(edges, edge_move_seq(hix), 12, 2);
        assert(apply_spec(corners, edges, ts[0]) == (c2, e2));
        // the turned cube stays oriented and in the subgroup
        assert forall|i: int| 0 <= i < 8 implies (#[trigger] c2[i]).1 == 0 by {
            assert(corner_move_seq(hix)[i].1 == 0);
            assert(corners[corner_move_seq(hix)[i].0 as int].1 == 0);
        }
        assert forall|i: int| 0 <= i < 12 implies (#[trigger] e2[i]).1 == 0 by {
            assert(edge_move_seq(hix)[i].1 == 0);
            assert(edges[edge_move_seq(hix)[i].0 as int].1 == 0);
        }
        assert(edges_in_g1(e2)) by {
            assert forall|i: int| 0 <= i < 8 implies (#[trigger] e2[i]).0 < 8 by {
                assert(edge_move_seq(hix)[i].0 < 8);
            }
            assert forall|i: int| 8 <= i < 12 implies (#[trigger] e2[i]).0 >= 8 by {
                assert(edge_move_seq(hix)[i].0 >= 8);
            }
        }
        // the corner coordinate steps as the table does
        lemma_p_dec_of_lehmer(corners, 8);
        assert(phase2::cp_step(lehmer(corners), g) == lehmer(c2)) by {
            let pc = p_canon(lehmer(corners), 8);
            assert(forall|i: int| 0 <= i < 8 ==> (#[trigger] pc[i]).0 == corners[i].0);
            let lhs = compose(pc, p2::corner_move_seq(g), 1);
            assert forall|i: int| 0 <= i < 8 implies (#[trigger] lhs[i]).0 == c2[i].0 by {
                assert(p2::corner_move_seq(g)[i].0 == corner_move_seq(hix)[i].0);
                assert(pc[corner_move_seq(hix)[i].0 as int].0
                    == corners[corner_move_seq(hix)[i].0 as int].0);
            }
            lemma_lehmer_elt_congruence(lhs, c2, 0);
        }
        // the layer-edge coordinate steps as the table does
        assert(te.len() == 8);
        assert(forall|i: int| 0 <= i < 8 ==> (#[trigger] te[i]) == edges[i]);
        lemma_p_dec_of_lehmer(te, 8);
        assert(phase2::ep_step(lehmer(te), g) == lehmer(top_edges(e2))) by {
            let pe = p_canon(lehmer(te), 8);
            assert(forall|i: int| 0 <= i < 8 ==> (#[trigger] pe[i]).0 == te[i].0);
            let lhs = compose(pe, p2::edge_move_seq(g), 1);
            assert forall|i: int| 0 <= i < 8
                implies (#[trigger] lhs[i]).0 == top_edges(e2)[i].0 by {
                let j = edge_move_seq(hix)[i].0 as int;
                assert(p2::edge_move_seq(g)[i].0 == edge_move_seq(hix)[i].0);
                assert(j < 8);
                assert(pe[j].0 == te[j].0 == edges[j].0);
                assert(top_edges(e2)[i].0 == e2[i].0);
            }
            lemma_lehmer_elt_congruence(lhs, top_edges(e2), 0);
        }
        // the slice coordinate steps as the table does
        assert(se.len() == 4);
        assert forall|i: int| 0 <= i < 4 implies (#[trigger] se[i]).0 < 4 by {
            assert(edges[8 + i].0 >= 8);
        }
        assert forall|i: int, j: int| 0 <= i < j < 4 implies se[i].0 != se[j].0 by {
            assert(edges[8 + i].0 != edges[8 + j].0);
            assert(edges[8 + i].0 >= 8 && edges[8 + j].0 >= 8);
        }
        lemma_p_dec_of_lehmer(se, 4);
        assert(phase2::sp_step(lehmer(se), g) == lehmer(slice_edges(e2))) by {
            let ps = p_canon(lehmer(se), 4);
            assert(forall|i: int| 0 <= i < 4 ==> (#[trigger] ps[i]).0 == se[i].0);
            let lhs = compose(ps, p2::slice_move_seq(g), 1);
            assert forall|i: int| 0 <= i < 4
                implies (#[trigger] lhs[i]).0 == slice_edges(e2)[i].0 by {
                let j = edge_move_seq(hix)[8 + i].0 as int;
                assert(j >= 8);
                assert(p2::slice_move_seq(g)[i].0 == j - 8);
                assert(ps[j - 8].0 == se[j - 8].0);
                assert(se[j - 8].0 == edges[j].0 - 8);
                assert(slice_edges(e2)[i].0 == e2[8 + i].0 - 8);
                assert(e2[8 + i].0 == edges[j].0);
            }
            lemma_lehmer_elt_congruence(lhs, slice_edges(e2), 0);
        }
        // the one-step table move equals the one-turn projection
        assert(td.corners.entry(s2.corners@, g) == phase2::cp_step(s2.corners@, g));
        assert(td.edges.entry(s2.edges@, g) == phase2::ep_step(s2.edges@, g));
        assert(td.slice.entry(s2.slice@, g) == phase2::sp_step(s2.slice@, g));
        crate::definitions::lemma_p_coord_spec_view::<8>(phase2::cp_step(s2.corners@, g));
        crate::definitions::lemma_p_coord_spec_view::<8>(phase2::ep_step(s2.edges@, g));
        crate::definitions::lemma_p_coord_spec_view::<4>(phase2::sp_step(s2.slice@, g));
        crate::definitions::lemma_lehmer_from_bound(c2, 0);
        crate::definitions::lemma_lehmer_from_bound(top_edges(e2), 0);
        crate::definitions::lemma_lehmer_from_bound(slice_edges(e2), 0);
        crate::definitions::lemma_p_coord_spec_view::<8>(lehmer(c2));
        crate::definitions::lemma_p_coord_spec_view::<8>(lehmer(top_edges(e2)));
        crate::definitions::lemma_p_coord_spec_view::<4>(lehmer(slice_edges(e2)));
        crate::definitions::lemma_p_coord_eq(
            s2.step_spec(td, g).corners, project2_spec(c2, e2).corners);
        crate::definitions::lemma_p_coord_eq(
            s2.step_spec(td, g).edges, project2_spec(c2, e2).edges);
        crate::definitions::lemma_p_coord_eq(
            s2.step_spec(td, g).slice, project2_spec(c2, e2).slice);
        assert(s2.step_spec(td, g) == project2_spec(c2, e2));
        // recurse over the rest
        assert(crate::search::edges_ok::<phase2::Cube>(td, m2.skip(1))) by {
            assert(forall|i: int| 0 <= i < m2.skip(1).len()
                ==> #[trigger] m2.skip(1)[i] == m2[i + 1]);
        }
        assert(forall|i: int| 0 <= i < ts.skip(1).len()
            ==> (#[trigger] ts.skip(1)[i]) == ts[i + 1]);
        lemma_project2_follow(c2, e2, td, ts.skip(1), m2.skip(1));
        assert(apply_seq_spec(corners, edges, ts) == apply_seq_spec(c2, e2, ts.skip(1)));
    }
}

} // verus!

verus! {

/// An oriented cube in the phase-2 subgroup whose three phase-2
/// coordinates are zero is the solved cube.
pub proof fn lemma_phase2_goal_is_solved(corners: Seq<(u8, u8)>, edges: Seq<(u8, u8)>)
    requires
        is_valid(corners, 8, 3),
        is_valid(edges, 12, 2),
        forall|i: int| 0 <= i < 8 ==> (#[trigger] corners[i]).1 == 0,
        forall|i: int| 0 <= i < 12 ==> (#[trigger] edges[i]).1 == 0,
        edges_in_g1(edges),
        project2_spec(corners, edges).solved_spec(),
    ensures
        corners == crate::definitions::id_seq(8),
        edges == crate::definitions::id_seq(12),
{
    phase2::lemma_p2_sizes();
    let te = top_edges(edges);
    let se = slice_edges(edges);
    crate::definitions::lemma_lehmer_from_bound(corners, 0);
    crate::definitions::lemma_lehmer_from_bound(te, 0);
    crate::definitions::lemma_lehmer_from_bound(se, 0);
    crate::definitions::lemma_p_coord_spec_view::<8>(lehmer(corners));
    crate::definitions::lemma_p_coord_spec_view::<8>(lehmer(te));
    crate::definitions::lemma_p_coord_spec_view::<4>(lehmer(se));
    assert(lehmer(corners) == 0);
    assert(lehmer(te) == 0);
    assert(lehmer(se) == 0);
    lemma_p_dec_of_lehmer(corners, 8);
    lemma_p_dec_zero(8);
    assert forall|i: int| 0 <= i < 8 implies (#[trigger] corners[i]) == (i as u8, 0u8) by {
        assert(p_dec(0, 8)[i] == corners[i].0);
    }
    assert(corners =~= crate::definitions::id_seq(8));
    assert(forall|i: int| 0 <= i < 8 ==> (#[trigger] te[i]) == edges[i]);
    lemma_p_dec_of_lehmer(te, 8);
    assert forall|i: int, j: int| 0 <= i < j < 4 implies se[i].0 != se[j].0 by {
        assert(edges[8 + i].0 != edges[8 + j].0);
        assert(edges[8 + i].0 >= 8 && edges[8 + j].0 >= 8);
    }
    assert forall|i: int| 0 <= i < 4 implies (#[trigger] se[i]).0 < 4 by {
        assert(edges[8 + i].0 >= 8);
    }
    lemma_p_dec_of_lehmer(se, 4);
    lemma_p_dec_zero(4);
    assert forall|i: int| 0 <= i < 12 implies (#[trigger] edges[i]) == (i as u8, 0u8) by {
        if i < 8 {
            assert(p_dec(0, 8)[i] == te[i].0);
        } else {
            assert(p_dec(0, 4)[i - 8] == se[i - 8].0);
            assert(se[i - 8].0 == edges[i].0 - 8);
        }
    }
    assert(edges =~= crate::definitions::id_seq(12));
}

/// The driver's promise made physical: any move list of the solution shape
/// restores the scrambled cube to the solved state. Every list the
/// two-phase driver returns has the shape, so its answers are true
/// solutions of the cube itself, not only of the coordinates.
pub proof fn lemma_solution_restores(
    corners: Seq<(u8, u8)>,
    edges: Seq<(u8, u8)>,
    t1: &phase1::Table,
    t2: &phase2::Table,
    ms: Seq<Htm>,
)
    requires
        t1.wf(),
        t2.wf(),
        is_valid(corners, 8, 3),
        is_valid(edges, 12, 2),
        o_sum(corners) % 3 == 0,
        o_sum(edges) % 2 == 0,
        solution_shape(corners, edges, t1, t2, ms),
    ensures
        apply_seq_spec(corners, edges, ms)
            == (crate::definitions::id_seq(8), crate::definitions::id_seq(12)),
{
    let (m1, m2) = choose|m1: Seq<usize>, m2: Seq<usize>|
        #![trigger is_solution(project1_spec(corners, edges), t1, m1),
            crate::search::edges_ok::<phase2::Cube>(t2, m2)]
        {
            &&& m1.len() + m2.len() == ms.len()
            &&& is_solution(project1_spec(corners, edges), t1, m1)
            &&& (forall|i: int| 0 <= i < m1.len() ==> (#[trigger] ms[i]).idx() == m1[i])
            &&& crate::search::edges_ok::<phase2::Cube>(t2, m2)
            &&& {
                let mid = apply_seq_spec(corners, edges, ms.subrange(0, m1.len() as int));
                &&& edges_in_g1(mid.1)
                &&& is_solution(project2_spec(mid.0, mid.1), t2, m2)
            }
            &&& (forall|i: int| 0 <= i < m2.len()
                ==> (#[trigger] ms[m1.len() + i]).idx() == gen_htm_index(m2[i] as int))
        };
    let k = m1.len() as int;
    let ts1 = ms.subrange(0, k);
    let ts2 = ms.subrange(k, ms.len() as int);
    assert(forall|i: int| 0 <= i < ts1.len() ==> (#[trigger] ts1[i]).idx() == m1[i]);
    lemma_phase1_solution_orients(corners, edges, t1, ts1, m1);
    let mid = apply_seq_spec(corners, edges, ts1);
    assert forall|i: int| 0 <= i < ts2.len()
        implies (#[trigger] ts2[i]).idx() == gen_htm_index(m2[i] as int) by {
        assert(ts2[i] == ms[k + i]);
        assert(ms[m1.len() + i].idx() == gen_htm_index(m2[i] as int));
    }
    lemma_project2_follow(mid.0, mid.1, t2, ts2, m2);
    let end = apply_seq_spec(mid.0, mid.1, ts2);
    assert(project2_spec(end.0, end.1).solved_spec());
    lemma_phase2_goal_is_solved(end.0, end.1);
    lemma_apply_seq_append(corners, edges, ts1, ts2);
    assert(ts1.add(ts2) =~= ms);
}

} // verus!
