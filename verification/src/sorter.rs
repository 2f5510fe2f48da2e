use vstd::prelude::*;
use vstd::multiset::Multiset;

use crate::dimacs::InputClause;

verus! {

broadcast use {vstd::seq_lib::group_to_multiset_ensures, vstd::multiset::group_multiset_axioms};

/// The index of the first clause of minimal length.
pub open spec fn first_min_index(cs: Seq<InputClause>) -> int
    decreases cs.len(),
{
    if cs.len() <= 1 {
        0
    } else {
        let r = first_min_index(cs.drop_first()) + 1;
        if cs[0]@.len() <= cs[r]@.len() {
            0
        } else {
            r
        }
    }
}

/// The clause set ordered by ascending length, clauses of equal length kept
/// in their given order: the earliest shortest clause, then the rest, ordered
/// the same way.
pub open spec fn stable_sorted(cs: Seq<InputClause>) -> Seq<InputClause>
    decreases cs.len(),
    via stable_sorted_dec
{
    if cs.len() == 0 {
        cs
    } else {
        seq![cs[first_min_index(cs)]] + stable_sorted(cs.remove(first_min_index(cs)))
    }
}

#[via_fn]
proof fn stable_sorted_dec(cs: Seq<InputClause>) {
    if cs.len() > 0 {
        lemma_first_min_index_bounds(cs);
    }
}

/// The first minimal index is a valid index of a minimal-length clause.
proof fn lemma_first_min_index_bounds(cs: Seq<InputClause>)
    requires
        cs.len() > 0,
    ensures
        0 <= first_min_index(cs) < cs.len(),
        forall|j: int|
            0 <= j < cs.len() ==> cs[first_min_index(cs)]@.len() <= #[trigger] cs[j]@.len(),
    decreases cs.len(),
{
    if cs.len() > 1 {
        let rest = cs.drop_first();
        lemma_first_min_index_bounds(rest);
        let r = first_min_index(rest) + 1;
        assert forall|j: int|
            0 <= j < cs.len() implies cs[first_min_index(cs)]@.len() <= #[trigger] cs[j]@.len() by {
            if j > 0 {
                assert(rest[j - 1] == cs[j]);
                assert(rest[first_min_index(rest)] == cs[r]);
            }
        }
    }
}

/// The first minimal index is the one index that is minimal among all clauses
/// and strictly below every clause before it.
proof fn lemma_first_min_index_exact(cs: Seq<InputClause>, m: int)
    requires
        0 <= m < cs.len(),
        forall|j: int| 0 <= j < cs.len() ==> cs[m]@.len() <= #[trigger] cs[j]@.len(),
        forall|j: int| 0 <= j < m ==> #[trigger] cs[j]@.len() > cs[m]@.len(),
    ensures
        first_min_index(cs) == m,
    decreases cs.len(),
{
    if cs.len() > 1 {
        let rest = cs.drop_first();
        lemma_first_min_index_bounds(rest);
        let r = first_min_index(rest) + 1;
        if m == 0 {
            assert(cs[0]@.len() <= cs[r]@.len());
        } else {
            assert forall|j: int|
                0 <= j < rest.len() implies rest[m - 1]@.len() <= #[trigger] rest[j]@.len() by {
                assert(rest[j] == cs[j + 1]);
                assert(rest[m - 1] == cs[m]);
            }
            assert forall|j: int|
                0 <= j < m - 1 implies #[trigger] rest[j]@.len() > rest[m - 1]@.len() by {
                assert(rest[j] == cs[j + 1]);
                assert(rest[m - 1] == cs[m]);
            }
            lemma_first_min_index_exact(rest, m - 1);
            assert(cs[0]@.len() > cs[m]@.len());
            assert(cs[r] == cs[m]);
        }
    }
}

/// Reorder a clause set by ascending clause length, as the solver's heuristic
/// asks: tightly constrained short clauses are processed first. The result is
/// exactly the stable ordering: the given clauses by ascending length,
/// clauses of equal length in their given order.
pub fn sort_clauses_by_len(clauses: Vec<InputClause>) -> (r: Vec<InputClause>)
    ensures
        r@ == stable_sorted(clauses@),
        r@.to_multiset() == clauses@.to_multiset(),
        r@.len() == clauses@.len(),
        forall|i: int, j: int| 0 <= i <= j < r@.len() ==> r@[i]@.len() <= r@[j]@.len(),
{
    let ghost orig = clauses@;
    let mut input = clauses;
    let mut out: Vec<InputClause> = Vec::new();
    proof {
        assert(orig.to_multiset() =~= out@.to_multiset().add(input@.to_multiset()));
        assert(out@ + stable_sorted(input@) =~= stable_sorted(orig));
    }
    while input.len() > 0
        invariant
            orig.to_multiset() == out@.to_multiset().add(input@.to_multiset()),
            orig.len() == out@.len() + input@.len(),
            stable_sorted(orig) == out@ + stable_sorted(input@),
            forall|i: int, j: int| 0 <= i <= j < out@.len() ==> out@[i]@.len() <= out@[j]@.len(),
            forall|i: int, k: int|
                0 <= i < out@.len() && 0 <= k < input@.len() ==> out@[i]@.len()
                    <= input@[k]@.len(),
        decreases input@.len(),
    {
        let mut mi: usize = 0;
        let mut k: usize = 1;
        while k < input.len()
            invariant
                mi < k <= input@.len(),
                forall|j: int|
                    0 <= j < k ==> input@[mi as int]@.len() <= #[trigger] input@[j]@.len(),
                forall|j: int|
                    0 <= j < mi ==> #[trigger] input@[j]@.len() > input@[mi as int]@.len(),
            decreases input@.len() - k,
        {
            if input[k].len() < input[mi].len() {
                mi = k;
            }
            k = k + 1;
        }
        let ghost input_pre = input@;
        let ghost out_pre = out@;
        proof {
            lemma_first_min_index_exact(input_pre, mi as int);
        }
        let c = input.remove(mi);
        out.push(c);
        proof {
            assert(input_pre.contains(c));
            assert(input_pre.to_multiset().count(c) > 0);
            assert(out@.to_multiset() =~= out_pre.to_multiset().insert(c));
            assert(input@.to_multiset() =~= input_pre.to_multiset().remove(c));
            assert(out@.to_multiset().add(input@.to_multiset()) =~= out_pre.to_multiset().add(
                input_pre.to_multiset(),
            ));
            assert(stable_sorted(input_pre) == seq![c] + stable_sorted(input@));
            assert(out_pre + (seq![c] + stable_sorted(input@)) =~= out@ + stable_sorted(input@));
            assert forall|i: int, k2: int|
                0 <= i < out@.len() && 0 <= k2 < input@.len() implies out@[i]@.len()
                <= input@[k2]@.len() by {
                if k2 < mi {
                    assert(input@[k2] == input_pre[k2]);
                } else {
                    assert(input@[k2] == input_pre[k2 + 1]);
                }
            }
        }
    }
    proof {
        assert(input@.to_multiset() =~= Multiset::<InputClause>::empty());
        assert(orig.to_multiset() =~= out@.to_multiset());
        assert(out@ + stable_sorted(input@) =~= out@);
    }
    out
}

} // verus!
