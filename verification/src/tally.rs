//! Finite sums of multisets, and the facts about them that counting
//! arguments need: a table sums to the same by rows as by columns, and a
//! sum over a sequence does not depend on the order of its elements.

use vstd::multiset::Multiset;
use vstd::prelude::*;

verus! {

/// `g(i, 0) + ... + g(i, m - 1)`: the sum along row `i` of a table of multisets.
pub open spec fn ms_row(g: spec_fn(int, int) -> Multiset<u8>, i: int, m: nat) -> Multiset<u8>
    decreases m,
{
    if m == 0 {
        Multiset::empty()
    } else {
        ms_row(g, i, (m - 1) as nat).add(g(i, m - 1))
    }
}

/// `g(0, j) + ... + g(n - 1, j)`: the sum down column `j`.
pub open spec fn ms_col(g: spec_fn(int, int) -> Multiset<u8>, j: int, n: nat) -> Multiset<u8>
    decreases n,
{
    if n == 0 {
        Multiset::empty()
    } else {
        ms_col(g, j, (n - 1) as nat).add(g(n - 1, j))
    }
}

/// The sum of the first `n` rows, each taken over `m` columns.
pub open spec fn ms_rows(g: spec_fn(int, int) -> Multiset<u8>, n: nat, m: nat) -> Multiset<u8>
    decreases n,
{
    if n == 0 {
        Multiset::empty()
    } else {
        ms_rows(g, (n - 1) as nat, m).add(ms_row(g, n - 1, m))
    }
}

/// The sum of the first `m` columns, each taken over `n` rows.
pub open spec fn ms_cols(g: spec_fn(int, int) -> Multiset<u8>, n: nat, m: nat) -> Multiset<u8>
    decreases m,
{
    if m == 0 {
        Multiset::empty()
    } else {
        ms_cols(g, n, (m - 1) as nat).add(ms_col(g, m - 1, n))
    }
}

/// One more row adds that row to the sum of the columns.
proof fn lemma_ms_cols_grow(g: spec_fn(int, int) -> Multiset<u8>, n: nat, m: nat)
    ensures
        ms_cols(g, n + 1, m) == ms_cols(g, n, m).add(ms_row(g, n as int, m)),
    decreases m,
{
    broadcast use vstd::multiset::group_multiset_axioms;

    if m == 0 {
        assert(ms_cols(g, n + 1, m) =~= ms_cols(g, n, m).add(ms_row(g, n as int, m)));
    } else {
        lemma_ms_cols_grow(g, n, (m - 1) as nat);
        assert(ms_col(g, m - 1, n + 1) == ms_col(g, m - 1, n).add(g(n as int, m - 1)));
        assert(ms_cols(g, n + 1, m) =~= ms_cols(g, n, m).add(ms_row(g, n as int, m)));
    }
}

/// A table of multisets sums to the same by rows as by columns.
pub proof fn lemma_ms_rows_cols(g: spec_fn(int, int) -> Multiset<u8>, n: nat, m: nat)
    ensures
        ms_rows(g, n, m) == ms_cols(g, n, m),
    decreases n,
{
    broadcast use vstd::multiset::group_multiset_axioms;

    if n == 0 {
        lemma_ms_cols_empty(g, m);
    } else {
        lemma_ms_rows_cols(g, (n - 1) as nat, m);
        lemma_ms_cols_grow(g, (n - 1) as nat, m);
    }
}

/// Columns of no rows sum to nothing.
proof fn lemma_ms_cols_empty(g: spec_fn(int, int) -> Multiset<u8>, m: nat)
    ensures
        ms_cols(g, 0, m) == Multiset::<u8>::empty(),
    decreases m,
{
    broadcast use vstd::multiset::group_multiset_axioms;

    if m > 0 {
        lemma_ms_cols_empty(g, (m - 1) as nat);
        assert(ms_cols(g, 0, m) =~= Multiset::<u8>::empty());
    }
}

/// The multiset sum over a sequence.
pub open spec fn seq_ms_sum<T>(s: Seq<T>, f: spec_fn(T) -> Multiset<u8>) -> Multiset<u8>
    decreases s.len(),
{
    if s.len() == 0 {
        Multiset::empty()
    } else {
        seq_ms_sum(s.drop_last(), f).add(f(s.last()))
    }
}

/// Removing any element takes its part out of the sum.
pub proof fn lemma_seq_ms_sum_remove<T>(s: Seq<T>, f: spec_fn(T) -> Multiset<u8>, j: int)
    requires
        0 <= j < s.len(),
    ensures
        seq_ms_sum(s, f) == seq_ms_sum(s.remove(j), f).add(f(s[j])),
    decreases s.len(),
{
    broadcast use vstd::multiset::group_multiset_axioms;

    if j == s.len() - 1 {
        assert(s.remove(j) =~= s.drop_last());
    } else {
        lemma_seq_ms_sum_remove(s.drop_last(), f, j);
        assert(s.remove(j).drop_last() =~= s.drop_last().remove(j));
        assert(s.remove(j).last() == s.last());
        assert(seq_ms_sum(s, f) =~= seq_ms_sum(s.remove(j), f).add(f(s[j])));
    }
}

/// The sum over a sequence depends only on its multiset of elements.
pub proof fn lemma_seq_ms_sum_permutation<T>(s1: Seq<T>, s2: Seq<T>, f: spec_fn(T) -> Multiset<u8>)
    requires
        s1.to_multiset() == s2.to_multiset(),
    ensures
        seq_ms_sum(s1, f) == seq_ms_sum(s2, f),
    decreases s1.len(),
{
    broadcast use vstd::seq_lib::group_to_multiset_ensures, vstd::multiset::group_multiset_axioms;

    if s1.len() == 0 {
        assert(s2.to_multiset().len() == 0);
        assert(s2.len() == 0);
    } else {
        let a = s1.last();
        assert(s1.to_multiset().count(a) > 0) by {
            assert(s1.contains(a));
        }
        assert(s2.contains(a));
        let j = choose|j: int| 0 <= j < s2.len() && s2[j] == a;
        let s1r = s1.drop_last();
        let s2r = s2.remove(j);
        assert(s1 =~= s1r.push(a));
        assert(s1r.to_multiset() =~= s1.to_multiset().remove(a));
        assert(s2r.to_multiset() =~= s2.to_multiset().remove(a));
        lemma_seq_ms_sum_permutation(s1r, s2r, f);
        lemma_seq_ms_sum_remove(s2, f, j);
    }
}

/// A sum over a sequence whose elements are the rows of a table is the sum
/// of those rows.
pub proof fn lemma_seq_ms_sum_rows<T>(
    s: Seq<T>,
    f: spec_fn(T) -> Multiset<u8>,
    g: spec_fn(int, int) -> Multiset<u8>,
    m: nat,
)
    requires
        forall|r: int| 0 <= r < s.len() ==> #[trigger] f(s[r]) == ms_row(g, r, m),
    ensures
        seq_ms_sum(s, f) == ms_rows(g, s.len(), m),
    decreases s.len(),
{
    if s.len() > 0 {
        lemma_seq_ms_sum_rows(s.drop_last(), f, g, m);
        assert(f(s[s.len() - 1]) == ms_row(g, s.len() - 1, m));
    }
}

/// Sums over two sequences whose elements add the same, place by place, agree.
pub proof fn lemma_seq_ms_sum_pointwise<T, U>(
    s: Seq<T>,
    f: spec_fn(T) -> Multiset<u8>,
    t: Seq<U>,
    h: spec_fn(U) -> Multiset<u8>,
)
    requires
        s.len() == t.len(),
        forall|i: int| 0 <= i < s.len() ==> #[trigger] f(s[i]) == h(t[i]),
    ensures
        seq_ms_sum(s, f) == seq_ms_sum(t, h),
    decreases s.len(),
{
    if s.len() > 0 {
        lemma_seq_ms_sum_pointwise(s.drop_last(), f, t.drop_last(), h);
        assert(f(s[s.len() - 1]) == h(t[t.len() - 1]));
    }
}

} // verus!
