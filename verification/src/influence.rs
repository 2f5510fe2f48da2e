use vstd::prelude::*;

use rustc_hash::FxHashMap;

use crate::dimacs::InputClause;
use crate::solver::influence_get;
use crate::solver::influence_insert;

verus! {

/// The clause set as a sequence of mathematical literal sequences.
pub open spec fn views_of(clauses: Seq<InputClause>) -> Seq<Seq<isize>> {
    clauses.map_values(|c: InputClause| c@)
}

/// How many occurrences of a literal a clause holds.
pub open spec fn occurrences_in(c: Seq<isize>, l: isize) -> nat
    decreases c.len(),
{
    if c.len() == 0 {
        0
    } else {
        (if c[0] == l {
            1nat
        } else {
            0nat
        }) + occurrences_in(c.drop_first(), l)
    }
}

/// How many occurrences of a literal a clause set holds in total.
pub open spec fn occurrences(cs: Seq<Seq<isize>>, l: isize) -> nat
    decreases cs.len(),
{
    if cs.len() == 0 {
        0
    } else {
        occurrences_in(cs[0], l) + occurrences(cs.drop_first(), l)
    }
}

/// How many literal occurrences a clause set holds over all literals.
pub open spec fn total_literals(cs: Seq<Seq<isize>>) -> nat
    decreases cs.len(),
{
    if cs.len() == 0 {
        0
    } else {
        cs[0].len() + total_literals(cs.drop_first())
    }
}

/// Appending a literal to a clause adds its occurrence.
proof fn lemma_occurrences_in_push(c: Seq<isize>, x: isize, l: isize)
    ensures
        occurrences_in(c.push(x), l) == occurrences_in(c, l) + (if x == l {
            1nat
        } else {
            0nat
        }),
    decreases c.len(),
{
    reveal_with_fuel(occurrences_in, 2);
    if c.len() == 0 {
        assert(c.push(x)[0] == x);
        assert(c.push(x).drop_first() =~= Seq::<isize>::empty());
    } else {
        assert(c.push(x)[0] == c[0]);
        assert(c.push(x).drop_first() =~= c.drop_first().push(x));
        lemma_occurrences_in_push(c.drop_first(), x, l);
    }
}

/// Appending a clause to a clause set adds its occurrences.
proof fn lemma_occurrences_push(cs: Seq<Seq<isize>>, c: Seq<isize>, l: isize)
    ensures
        occurrences(cs.push(c), l) == occurrences(cs, l) + occurrences_in(c, l),
    decreases cs.len(),
{
    reveal_with_fuel(occurrences, 2);
    if cs.len() == 0 {
        assert(cs.push(c)[0] == c);
        assert(cs.push(c).drop_first() =~= Seq::<Seq<isize>>::empty());
    } else {
        assert(cs.push(c)[0] == cs[0]);
        assert(cs.push(c).drop_first() =~= cs.drop_first().push(c));
        lemma_occurrences_push(cs.drop_first(), c, l);
    }
}

/// A literal occurs in a clause no more often than the clause is long.
proof fn lemma_occurrences_in_le_len(c: Seq<isize>, l: isize)
    ensures
        occurrences_in(c, l) <= c.len(),
    decreases c.len(),
{
    if c.len() > 0 {
        lemma_occurrences_in_le_len(c.drop_first(), l);
    }
}

/// No literal occurs more often than the clause set holds literals.
pub proof fn lemma_occurrences_le_total(cs: Seq<Seq<isize>>, l: isize)
    ensures
        occurrences(cs, l) <= total_literals(cs),
    decreases cs.len(),
{
    if cs.len() > 0 {
        lemma_occurrences_in_le_len(cs[0], l);
        lemma_occurrences_le_total(cs.drop_first(), l);
    }
}

/// A prefix of a clause holds no more occurrences than the whole clause.
proof fn lemma_occurrences_in_take_le(c: Seq<isize>, k: int, l: isize)
    requires
        0 <= k <= c.len(),
    ensures
        occurrences_in(c.take(k), l) <= occurrences_in(c, l),
    decreases c.len() - k,
{
    if k == c.len() {
        assert(c.take(k) =~= c);
    } else {
        assert(c.take(k + 1) =~= c.take(k).push(c[k]));
        lemma_occurrences_in_push(c.take(k), c[k], l);
        lemma_occurrences_in_take_le(c, k + 1, l);
    }
}

/// A prefix of a clause set holds no more occurrences than the whole set.
proof fn lemma_occurrences_take_le(cs: Seq<Seq<isize>>, k: int, l: isize)
    requires
        0 <= k <= cs.len(),
    ensures
        occurrences(cs.take(k), l) <= occurrences(cs, l),
    decreases cs.len() - k,
{
    if k == cs.len() {
        assert(cs.take(k) =~= cs);
    } else {
        assert(cs.take(k + 1) =~= cs.take(k).push(cs[k]));
        lemma_occurrences_push(cs.take(k), cs[k], l);
        lemma_occurrences_take_le(cs, k + 1, l);
    }
}

/// The occurrences already scanned while walking clause `i` up to literal `j`,
/// the literal being scanned included, never exceed the total literal count.
proof fn lemma_scanned_occurrences_bound(cs: Seq<Seq<isize>>, i: int, j: int, l: isize)
    requires
        0 <= i < cs.len(),
        0 <= j < cs[i].len(),
    ensures
        occurrences(cs.take(i), l) + occurrences_in(cs[i].take(j), l) + (if cs[i][j] == l {
            1nat
        } else {
            0nat
        }) <= total_literals(cs),
{
    assert(cs[i].take(j + 1) =~= cs[i].take(j).push(cs[i][j]));
    lemma_occurrences_in_push(cs[i].take(j), cs[i][j], l);
    lemma_occurrences_in_take_le(cs[i], j + 1, l);
    assert(cs.take(i + 1) =~= cs.take(i).push(cs[i]));
    lemma_occurrences_push(cs.take(i), cs[i], l);
    lemma_occurrences_take_le(cs, i + 1, l);
    lemma_occurrences_le_total(cs, l);
}

/// A literal occurs in a clause exactly when the clause contains it.
pub proof fn lemma_occurrences_in_contains(c: Seq<isize>, l: isize)
    ensures
        (occurrences_in(c, l) > 0) <==> c.contains(l),
    decreases c.len(),
{
    if c.len() > 0 {
        lemma_occurrences_in_contains(c.drop_first(), l);
        if c[0] == l {
            assert(c.contains(l));
        } else {
            if c.drop_first().contains(l) {
                let j = choose|j: int| 0 <= j < c.drop_first().len() && c.drop_first()[j] == l;
                assert(c[j + 1] == l);
                assert(c.contains(l));
            }
            if c.contains(l) {
                let j = choose|j: int| 0 <= j < c.len() && c[j] == l;
                assert(j > 0);
                assert(c.drop_first()[j - 1] == l);
                assert(c.drop_first().contains(l));
            }
        }
    }
}

/// A clause of pairwise-distinct literals holds a literal at most once.
pub proof fn lemma_occurrences_in_distinct(c: Seq<isize>, l: isize)
    requires
        forall|i: int, j: int| 0 <= i < j < c.len() ==> c[i] != c[j],
    ensures
        occurrences_in(c, l) <= 1,
    decreases c.len(),
{
    if c.len() > 0 {
        let rest = c.drop_first();
        assert(forall|i: int, j: int| 0 <= i < j < rest.len() ==> rest[i] != rest[j]);
        if c[0] == l {
            if rest.contains(l) {
                let j = choose|j: int| 0 <= j < rest.len() && rest[j] == l;
                assert(c[j + 1] == l);
                assert(false);
            }
            lemma_occurrences_in_contains(rest, l);
        } else {
            lemma_occurrences_in_distinct(rest, l);
        }
    }
}

/// Occurrences in the clause set from position `k` on split into those of
/// clause `k` and those of the clauses after it.
pub proof fn lemma_occurrences_skip_unfold(cs: Seq<Seq<isize>>, k: int, l: isize)
    requires
        0 <= k < cs.len(),
    ensures
        occurrences(cs.skip(k), l) == occurrences_in(cs[k], l) + occurrences(cs.skip(k + 1), l),
{
    assert(cs.skip(k)[0] == cs[k]);
    assert(cs.skip(k).drop_first() =~= cs.skip(k + 1));
}

/// A suffix of a clause set holds no more occurrences than the whole set.
pub proof fn lemma_occurrences_skip_le(cs: Seq<Seq<isize>>, k: int, l: isize)
    requires
        0 <= k <= cs.len(),
    ensures
        occurrences(cs.skip(k), l) <= occurrences(cs, l),
    decreases k,
{
    if k == 0 {
        assert(cs.skip(0) =~= cs);
    } else {
        lemma_occurrences_skip_unfold(cs, k - 1, l);
        lemma_occurrences_skip_le(cs, k - 1, l);
    }
}

/// Build the influence table: scan every literal occurrence of every clause
/// and count it. A literal is in the table exactly when it occurs somewhere,
/// and its entry is its total number of occurrences.
pub fn build_influence(clauses: &Vec<InputClause>) -> (m: FxHashMap<isize, usize>)
    requires
        total_literals(views_of(clauses@)) <= usize::MAX,
    ensures
        forall|l: isize| #[trigger]
            m@.contains_key(l) <==> occurrences(views_of(clauses@), l) > 0,
        forall|l: isize| #[trigger]
            m@.contains_key(l) ==> m@[l] == occurrences(views_of(clauses@), l),
{
    let ghost all = views_of(clauses@);
    let mut m: FxHashMap<isize, usize> = FxHashMap::default();
    proof {
        assert(all.take(0) =~= Seq::<Seq<isize>>::empty());
    }
    let mut i: usize = 0;
    while i < clauses.len()
        invariant
            i <= clauses.len(),
            all == views_of(clauses@),
            all.len() == clauses@.len(),
            total_literals(all) <= usize::MAX,
            forall|l: isize| #[trigger]
                m@.contains_key(l) <==> occurrences(all.take(i as int), l) > 0,
            forall|l: isize| #[trigger]
                m@.contains_key(l) ==> m@[l] == occurrences(all.take(i as int), l),
        decreases clauses.len() - i,
    {
        let clause = &clauses[i];
        proof {
            assert(all[i as int] == clause@);
            assert(clause@.take(0) =~= Seq::<isize>::empty());
        }
        let mut j: usize = 0;
        while j < clause.len()
            invariant
                i < clauses.len(),
                j <= clause.len(),
                all == views_of(clauses@),
                all.len() == clauses@.len(),
                all[i as int] == clause@,
                total_literals(all) <= usize::MAX,
                forall|l: isize| #[trigger]
                    m@.contains_key(l) <==> occurrences(all.take(i as int), l) + occurrences_in(
                        clause@.take(j as int),
                        l,
                    ) > 0,
                forall|l: isize| #[trigger]
                    m@.contains_key(l) ==> m@[l] == occurrences(all.take(i as int), l)
                        + occurrences_in(clause@.take(j as int), l),
            decreases clause.len() - j,
        {
            let lit = clause[j];
            let cnt = match influence_get(&m, lit) {
                Some(x) => x,
                None => 0,
            };
            proof {
                lemma_scanned_occurrences_bound(all, i as int, j as int, lit);
                assert(clause@.take(j as int + 1) =~= clause@.take(j as int).push(lit));
            }
            influence_insert(&mut m, lit, cnt + 1);
            proof {
                assert forall|l: isize|
                    #[trigger] m@.contains_key(l) <==> occurrences(all.take(i as int), l)
                        + occurrences_in(clause@.take(j as int + 1), l) > 0 by {
                    lemma_occurrences_in_push(clause@.take(j as int), lit, l);
                }
                assert forall|l: isize| #[trigger]
                    m@.contains_key(l) implies m@[l] == occurrences(all.take(i as int), l)
                    + occurrences_in(clause@.take(j as int + 1), l) by {
                    lemma_occurrences_in_push(clause@.take(j as int), lit, l);
                }
            }
            j = j + 1;
        }
        proof {
            assert(clause@.take(clause.len() as int) =~= clause@);
            assert(all.take(i as int + 1) =~= all.take(i as int).push(clause@));
            assert forall|l: isize| true implies occurrences(all.take(i as int + 1), l)
                == occurrences(all.take(i as int), l) + occurrences_in(clause@, l) by {
                lemma_occurrences_push(all.take(i as int), clause@, l);
            }
        }
        i = i + 1;
    }
    proof {
        assert(all.take(clauses.len() as int) =~= all);
    }
    m
}

/// The number of literal occurrences in a clause set, when it fits a `usize`.
pub fn total_literal_count(clauses: &Vec<InputClause>) -> (r: Option<usize>)
    ensures
        match r {
            Some(n) => n == total_literals(views_of(clauses@)),
            None => total_literals(views_of(clauses@)) > usize::MAX,
        },
{
    let ghost all = views_of(clauses@);
    proof {
        assert(all.take(0) =~= Seq::<Seq<isize>>::empty());
    }
    let mut total: usize = 0;
    let mut i: usize = 0;
    while i < clauses.len()
        invariant
            i <= clauses.len(),
            all == views_of(clauses@),
            all.len() == clauses@.len(),
            total == total_literals(all.take(i as int)),
        decreases clauses.len() - i,
    {
        proof {
            assert(all[i as int] == clauses@[i as int]@);
            assert(all.take(i as int + 1) =~= all.take(i as int).push(all[i as int]));
            lemma_total_literals_push(all.take(i as int), all[i as int]);
        }
        let n = clauses[i].len();
        if usize::MAX - total < n {
            proof {
                lemma_total_literals_take_le(all, i as int + 1);
            }
            return None;
        }
        total = total + n;
        i = i + 1;
    }
    proof {
        assert(all.take(clauses.len() as int) =~= all);
    }
    Some(total)
}

/// Appending a clause to a clause set adds its length to the total.
proof fn lemma_total_literals_push(cs: Seq<Seq<isize>>, c: Seq<isize>)
    ensures
        total_literals(cs.push(c)) == total_literals(cs) + c.len(),
    decreases cs.len(),
{
    reveal_with_fuel(total_literals, 2);
    if cs.len() == 0 {
        assert(cs.push(c)[0] == c);
        assert(cs.push(c).drop_first() =~= Seq::<Seq<isize>>::empty());
    } else {
        assert(cs.push(c)[0] == cs[0]);
        assert(cs.push(c).drop_first() =~= cs.drop_first().push(c));
        lemma_total_literals_push(cs.drop_first(), c);
    }
}

/// A prefix of a clause set holds no more literals than the whole set.
proof fn lemma_total_literals_take_le(cs: Seq<Seq<isize>>, k: int)
    requires
        0 <= k <= cs.len(),
    ensures
        total_literals(cs.take(k)) <= total_literals(cs),
    decreases cs.len() - k,
{
    if k == cs.len() {
        assert(cs.take(k) =~= cs);
    } else {
        assert(cs.take(k + 1) =~= cs.take(k).push(cs[k]));
        lemma_total_literals_push(cs.take(k), cs[k]);
        lemma_total_literals_take_le(cs, k + 1);
    }
}

} // verus!
