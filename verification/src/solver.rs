use vstd::prelude::*;

use std::collections::HashSet;
use rustc_hash::FxBuildHasher;
use rustc_hash::FxHashMap;

use crate::dimacs::copy_clause;
use crate::dimacs::InputClause;
use crate::influence::build_influence;
use crate::influence::lemma_occurrences_in_contains;
use crate::influence::lemma_occurrences_in_distinct;
use crate::influence::lemma_occurrences_le_total;
use crate::influence::lemma_occurrences_skip_le;
use crate::influence::lemma_occurrences_skip_unfold;
use crate::influence::occurrences;
use crate::influence::total_literals;
use crate::influence::views_of;

verus! {

broadcast use vstd::std_specs::hash::group_hash_axioms;

/// Run status of the solver: `Running` means the greedy strategy can still
/// proceed; `Halted` means some clause could not be satisfied under the
/// commitments made so far, which is terminal.
#[derive(Debug, PartialEq, Eq, Structural)]
pub enum SolverState {
    Running,
    Halted,
}

/// The influence table is kept in rustc_hash's `FxHashMap`, a std `HashMap`
/// that hashes with `FxBuildHasher`. The hasher is declared here so that the
/// map type can appear in verified signatures and fields.
#[verifier::external_type_specification]
#[verifier::external_body]
pub struct ExFxBuildHasher(FxBuildHasher);

/// A usable literal: non-zero (zero is the clause terminator of the input
/// format, never a literal) and negatable without overflow.
pub open spec fn valid_lit(l: isize) -> bool {
    l != 0 && l != isize::MIN
}

/// The negation of a literal.
pub open spec fn neg_lit(l: isize) -> isize
    recommends
        valid_lit(l),
{
    (-(l as int)) as isize
}

/// One visit of a literal consumes one remaining occurrence of it: its entry
/// in the influence table, when present, goes down by one. Absent entries are
/// left absent.
pub open spec fn consume_lit(inf: Map<isize, usize>, v: isize) -> Map<isize, usize> {
    if inf.contains_key(v) && inf[v] >= 1 {
        inf.insert(v, (inf[v] - 1) as usize)
    } else {
        inf
    }
}

/// The influence table after every literal of a clause has been visited, in
/// clause order.
pub open spec fn consume_clause(inf: Map<isize, usize>, c: Seq<isize>) -> Map<isize, usize>
    decreases c.len(),
{
    if c.len() == 0 {
        inf
    } else {
        consume_clause(consume_lit(inf, c[0]), c.drop_first())
    }
}

/// Primary selection key of a candidate literal `v`: the remaining influence
/// of its negation at the moment `v` is visited. A literal whose negation
/// never occurs anywhere gets the sentinel `usize::MAX`: committing such a
/// literal can never block a later clause, though under the ascending
/// selection order the sentinel makes it the last choice, not the first.
pub open spec fn key_a(inf: Map<isize, usize>, v: isize) -> int
    recommends
        valid_lit(v),
{
    if inf.contains_key(neg_lit(v)) {
        inf[neg_lit(v)] as int
    } else {
        usize::MAX as int
    }
}

/// Secondary selection key: the remaining influence of the candidate itself
/// at the moment it is visited.
pub open spec fn key_b(inf: Map<isize, usize>, v: isize) -> int
    recommends
        inf.contains_key(v),
{
    if inf.contains_key(v) {
        inf[v] as int
    } else {
        0
    }
}

/// The candidates a clause offers, in clause order, each tagged with its two
/// selection keys. A literal is a candidate when its negation has not been
/// committed; its keys are read from the influence table as it stands when
/// the literal is visited, after the earlier literals of the same clause have
/// been consumed.
pub open spec fn candidate_seq(
    inf: Map<isize, usize>,
    used: Set<isize>,
    c: Seq<isize>,
) -> Seq<(int, int, isize)>
    decreases c.len(),
{
    if c.len() == 0 {
        Seq::empty()
    } else {
        let v = c[0];
        let rest = candidate_seq(consume_lit(inf, v), used, c.drop_first());
        if !used.contains(neg_lit(v)) {
            seq![(key_a(inf, v), key_b(inf, v), v)] + rest
        } else {
            rest
        }
    }
}

/// A clause is already satisfied when some literal of it has been committed.
pub open spec fn clause_satisfied(used: Set<isize>, c: Seq<isize>) -> bool {
    exists|i: int| 0 <= i < c.len() && used.contains(c[i])
}

/// The selection order over candidates: ascending primary key, ties broken by
/// ascending secondary key, remaining ties by ascending literal value.
pub open spec fn key_le(x: (int, int, isize), y: (int, int, isize)) -> bool {
    ||| x.0 < y.0
    ||| (x.0 == y.0 && x.1 < y.1)
    ||| (x.0 == y.0 && x.1 == y.1 && x.2 <= y.2)
}

/// `t` is the candidate the tie-break policy picks: it is among the
/// candidates and it precedes every candidate in the selection order.
pub open spec fn is_selected(cands: Seq<(int, int, isize)>, t: (int, int, isize)) -> bool {
    &&& cands.contains(t)
    &&& forall|j: int| 0 <= j < cands.len() ==> key_le(t, #[trigger] cands[j])
}

/// The candidate the tie-break policy picks.
pub open spec fn selected(cands: Seq<(int, int, isize)>) -> (int, int, isize) {
    choose|t: (int, int, isize)| is_selected(cands, t)
}

/// A clause the engine accepts: usable literals, pairwise distinct.
pub open spec fn clause_lits_ok(c: Seq<isize>) -> bool {
    &&& forall|i: int| 0 <= i < c.len() ==> valid_lit(#[trigger] c[i])
    &&& forall|i: int, j: int| 0 <= i < j < c.len() ==> c[i] != c[j]
}

/// What `process` asks of a clause: literals are usable, pairwise distinct,
/// and each has a remaining-occurrence entry that still counts this clause.
pub open spec fn clause_ok(inf: Map<isize, usize>, c: Seq<isize>) -> bool {
    &&& clause_lits_ok(c)
    &&& forall|i: int|
        0 <= i < c.len() ==> inf.contains_key(#[trigger] c[i]) && inf[c[i]] >= 1
}

/// Consuming one more literal at the end of a clause prefix consumes the
/// prefix first and that literal last.
proof fn lemma_consume_push(inf: Map<isize, usize>, s: Seq<isize>, v: isize)
    ensures
        consume_clause(inf, s.push(v)) == consume_lit(consume_clause(inf, s), v),
    decreases s.len(),
{
    reveal_with_fuel(consume_clause, 2);
    if s.len() == 0 {
        assert(s.push(v)[0] == v);
        assert(s.push(v).drop_first() =~= Seq::<isize>::empty());
    } else {
        assert(s.push(v)[0] == s[0]);
        assert(s.push(v).drop_first() =~= s.drop_first().push(v));
        lemma_consume_push(consume_lit(inf, s[0]), s.drop_first(), v);
    }
}

/// Consuming a clause keeps the table's key set and changes no entry whose
/// literal the clause does not contain.
proof fn lemma_consume_frame(inf: Map<isize, usize>, s: Seq<isize>, l: isize)
    ensures
        consume_clause(inf, s).contains_key(l) == inf.contains_key(l),
        !s.contains(l) && inf.contains_key(l) ==> consume_clause(inf, s)[l] == inf[l],
    decreases s.len(),
{
    if s.len() > 0 {
        lemma_consume_frame(consume_lit(inf, s[0]), s.drop_first(), l);
        if !s.contains(l) {
            assert(s[0] != l);
            if s.drop_first().contains(l) {
                let j = choose|j: int| 0 <= j < s.drop_first().len() && s.drop_first()[j] == l;
                assert(s[j + 1] == l);
                assert(false);
            }
        }
    }
}

/// Extending a clause prefix by one literal appends at most one candidate:
/// the new literal, keyed against the table as it stands after the prefix,
/// when its negation is not committed.
proof fn lemma_candidates_push(inf: Map<isize, usize>, used: Set<isize>, s: Seq<isize>, v: isize)
    ensures
        candidate_seq(inf, used, s.push(v)) == (if !used.contains(neg_lit(v)) {
            candidate_seq(inf, used, s).push(
                (key_a(consume_clause(inf, s), v), key_b(consume_clause(inf, s), v), v),
            )
        } else {
            candidate_seq(inf, used, s)
        }),
    decreases s.len(),
{
    reveal_with_fuel(candidate_seq, 2);
    reveal_with_fuel(consume_clause, 2);
    if s.len() == 0 {
        assert(s.push(v)[0] == v);
        assert(s.push(v).drop_first() =~= Seq::<isize>::empty());
        assert(consume_clause(inf, s) == inf);
        if !used.contains(neg_lit(v)) {
            assert(candidate_seq(inf, used, s.push(v)) =~= candidate_seq(inf, used, s).push(
                (key_a(inf, v), key_b(inf, v), v),
            ));
        }
    } else {
        assert(s.push(v)[0] == s[0]);
        assert(s.push(v).drop_first() =~= s.drop_first().push(v));
        let inf1 = consume_lit(inf, s[0]);
        lemma_candidates_push(inf1, used, s.drop_first(), v);
        assert(consume_clause(inf1, s.drop_first()) == consume_clause(inf, s));
        if !used.contains(neg_lit(v)) {
            assert(candidate_seq(inf, used, s.push(v)) =~= candidate_seq(inf, used, s).push(
                (key_a(consume_clause(inf, s), v), key_b(consume_clause(inf, s), v), v),
            ));
        }
    }
}

/// Every candidate of a clause is a literal of the clause whose negation is
/// not committed.
proof fn lemma_candidate_member(
    inf: Map<isize, usize>,
    used: Set<isize>,
    s: Seq<isize>,
    t: (int, int, isize),
)
    requires
        candidate_seq(inf, used, s).contains(t),
    ensures
        s.contains(t.2),
        !used.contains(neg_lit(t.2)),
    decreases s.len(),
{
    let cands = candidate_seq(inf, used, s);
    let v = s[0];
    let rest = candidate_seq(consume_lit(inf, v), used, s.drop_first());
    let i = choose|i: int| 0 <= i < cands.len() && cands[i] == t;
    if !used.contains(neg_lit(v)) && i == 0 {
        assert(t.2 == v);
        assert(s.contains(v));
    } else {
        let j: int = if !used.contains(neg_lit(v)) {
            i - 1
        } else {
            i
        };
        assert(rest[j] == t);
        assert(rest.contains(t));
        lemma_candidate_member(consume_lit(inf, v), used, s.drop_first(), t);
        let k = choose|k: int| 0 <= k < s.drop_first().len() && s.drop_first()[k] == t.2;
        assert(s[k + 1] == t.2);
    }
}

/// Negation of a usable literal is usable, involutive, and never the literal
/// itself.
proof fn lemma_neg_lit(l: isize)
    requires
        valid_lit(l),
    ensures
        valid_lit(neg_lit(l)),
        neg_lit(neg_lit(l)) == l,
        neg_lit(l) != l,
{
    assert(isize::MIN < -(l as int) <= isize::MAX);
    assert(neg_lit(l) as int == -(l as int));
}

/// The tie-break policy picks a single candidate: two candidates that both
/// precede every candidate are the same triple.
pub proof fn lemma_selected_unique(
    cands: Seq<(int, int, isize)>,
    t1: (int, int, isize),
    t2: (int, int, isize),
)
    requires
        is_selected(cands, t1),
        is_selected(cands, t2),
    ensures
        t1 == t2,
{
    let i1 = choose|i: int| 0 <= i < cands.len() && cands[i] == t1;
    let i2 = choose|i: int| 0 <= i < cands.len() && cands[i] == t2;
    assert(key_le(t1, cands[i2]));
    assert(key_le(t2, cands[i1]));
    assert(t1.0 == t2.0 && t1.1 == t2.1 && t1.2 == t2.2);
    assert(t1 == t2);
}

/// The greedy literal-commitment engine. It owns the influence table (literal
/// to remaining unconsumed occurrences) and the commitment set (literals
/// irrevocably decided true); clauses are fed to it one at a time, shortest
/// first.
pub struct Solver {
    influence: FxHashMap<isize, usize>,
    used: HashSet<isize>,
}

impl Solver {
    /// The influence table as a mathematical map.
    pub closed spec fn influences(self) -> Map<isize, usize> {
        self.influence@
    }

    /// The commitment set as a mathematical set.
    pub closed spec fn committed(self) -> Set<isize> {
        self.used@
    }

    /// The solver's invariant: the commitment set is finite, and every
    /// committed literal is usable and has no committed negation.
    pub open spec fn wf(self) -> bool {
        &&& self.committed().finite()
        &&& forall|l: isize|
            self.committed().contains(l) ==> valid_lit(l) && !self.committed().contains(neg_lit(l))
    }

    /// A new solver: the given influence table, an empty commitment set.
    pub fn new(influence: FxHashMap<isize, usize>) -> (s: Solver)
        ensures
            s.influences() == influence@,
            s.committed() == Set::<isize>::empty(),
            s.wf(),
    {
        Solver { influence, used: HashSet::new() }
    }

    /// Whether a literal has been committed true.
    pub fn is_committed(&self, l: isize) -> (r: bool)
        ensures
            r == self.committed().contains(l),
    {
        self.used.contains(&l)
    }

    /// How many literals have been committed.
    pub fn committed_count(&self) -> (r: usize)
        ensures
            r == self.committed().len(),
    {
        self.used.len()
    }

    /// Feed one clause to the solver. Every literal of the clause has one
    /// occurrence consumed from the influence table. If some literal of the
    /// clause is already committed, the clause needs no decision and the set
    /// is unchanged. Otherwise the selection policy picks, among the literals
    /// whose negation is not committed, the one whose keys come first in the
    /// ascending order, and commits it; if no such literal exists the clause
    /// cannot be satisfied and the run halts.
    pub fn add_clause(&mut self, clause: InputClause) -> (r: SolverState)
        requires
            old(self).wf(),
            clause_ok(old(self).influences(), clause@),
        ensures
            final(self).wf(),
            final(self).influences() == consume_clause(old(self).influences(), clause@),
            forall|l: isize|
                old(self).committed().contains(l) ==> final(self).committed().contains(l),
            old(self).committed().len() <= final(self).committed().len(),
            final(self).committed().len() <= old(self).committed().len() + 1,
            clause_satisfied(old(self).committed(), clause@) ==> r == SolverState::Running
                && final(self).committed() == old(self).committed(),
            ({
                let cands = candidate_seq(old(self).influences(), old(self).committed(), clause@);
                !clause_satisfied(old(self).committed(), clause@) ==> {
                    &&& cands.len() == 0 ==> r == SolverState::Halted && final(self).committed()
                        == old(self).committed()
                    &&& cands.len() > 0 ==> {
                        &&& is_selected(cands, selected(cands))
                        &&& r == SolverState::Running
                        &&& final(self).committed() == old(self).committed().insert(
                            selected(cands).2,
                        )
                    }
                }
            }),
    {
        let ghost inf0 = self.influence@;
        let ghost used0 = self.used@;
        let mut best: Option<(usize, usize, isize)> = None;
        let mut handled = false;
        let mut i: usize = 0;
        while i < clause.len()
            invariant
                i <= clause.len(),
                clause_ok(inf0, clause@),
                self.used@ == used0,
                used0.finite(),
                self.influence@ == consume_clause(inf0, clause@.take(i as int)),
                handled == clause_satisfied(used0, clause@.take(i as int)),
                ({
                    let cands = candidate_seq(inf0, used0, clause@.take(i as int));
                    match best {
                        None => cands.len() == 0,
                        Some(b) => is_selected(cands, (b.0 as int, b.1 as int, b.2))
                            && clause@.take(i as int).contains(b.2),
                    }
                }),
            decreases clause.len() - i,
        {
            let ghost prefix = clause@.take(i as int);
            let ghost cands_pre = candidate_seq(inf0, used0, prefix);
            let v = clause[i];
            let nv = -v;
            proof {
                assert(clause@[i as int] == v);
                lemma_neg_lit(v);
                assert(nv == neg_lit(v));
                assert(prefix.push(v) =~= clause@.take(i as int + 1));
                lemma_consume_push(inf0, prefix, v);
                lemma_candidates_push(inf0, used0, prefix, v);
                lemma_consume_frame(inf0, prefix, v);
                if prefix.contains(v) {
                    let j = choose|j: int| 0 <= j < prefix.len() && prefix[j] == v;
                    assert(clause@[j] == clause@[i as int]);
                    assert(false);
                }
            }
            if !self.used.contains(&nv) {
                let ka = match influence_get(&self.influence, nv) {
                    Some(x) => x,
                    None => usize::MAX,
                };
                let kb = match influence_get(&self.influence, v) {
                    Some(x) => x,
                    None => 0,
                };
                let ghost tnew = (ka as int, kb as int, v);
                let newbest = match best {
                    None => (ka, kb, v),
                    Some(b) => {
                        if ka < b.0 || (ka == b.0 && (kb < b.1 || (kb == b.1 && v < b.2))) {
                            (ka, kb, v)
                        } else {
                            b
                        }
                    },
                };
                proof {
                    let cur = self.influence@;
                    assert(tnew == (key_a(cur, v), key_b(cur, v), v));
                    let cands_post = cands_pre.push(tnew);
                    assert(candidate_seq(inf0, used0, prefix.push(v)) == cands_post);
                    let nt = (newbest.0 as int, newbest.1 as int, newbest.2);
                    assert(cands_post[cands_pre.len() as int] == tnew);
                    assert(cands_post.contains(tnew));
                    match best {
                        None => {
                            assert(cands_pre.len() == 0);
                            assert(nt == tnew);
                            assert forall|j: int|
                                0 <= j < cands_post.len() implies key_le(nt, cands_post[j]) by {
                                assert(cands_post[j] == tnew);
                            }
                        },
                        Some(b) => {
                            let bt = (b.0 as int, b.1 as int, b.2);
                            let bi = choose|x: int|
                                0 <= x < cands_pre.len() && cands_pre[x] == bt;
                            assert(cands_post[bi] == bt);
                            assert(cands_post.contains(bt));
                            assert forall|j: int|
                                0 <= j < cands_post.len() implies key_le(nt, cands_post[j]) by {
                                if j < cands_pre.len() {
                                    assert(cands_post[j] == cands_pre[j]);
                                    assert(key_le(bt, cands_pre[j]));
                                } else {
                                    assert(cands_post[j] == tnew);
                                }
                            }
                        },
                    }
                    assert(is_selected(cands_post, nt));
                    if newbest.2 == v {
                        assert(clause@.take(i as int + 1)[i as int] == v);
                        assert(clause@.take(i as int + 1).contains(newbest.2));
                    } else {
                        let b = best->0;
                        let j = choose|j: int| 0 <= j < prefix.len() && prefix[j] == b.2;
                        assert(clause@.take(i as int + 1)[j] == b.2);
                        assert(clause@.take(i as int + 1).contains(newbest.2));
                    }
                }
                best = Some(newbest);
            } else {
                proof {
                    assert(used0.contains(neg_lit(v)));
                    assert(candidate_seq(inf0, used0, prefix.push(v)) == cands_pre);
                    if best is Some {
                        let b = best->0;
                        let j = choose|j: int| 0 <= j < prefix.len() && prefix[j] == b.2;
                        assert(clause@.take(i as int + 1)[j] == b.2);
                        assert(clause@.take(i as int + 1).contains(b.2));
                    }
                }
            }
            if let Some(x) = influence_get(&self.influence, v) {
                influence_insert(&mut self.influence, v, x - 1);
            }
            if self.used.contains(&v) {
                handled = true;
            }
            proof {
                let post = clause@.take(i as int + 1);
                if clause_satisfied(used0, prefix) {
                    let j = choose|j: int| 0 <= j < prefix.len() && used0.contains(prefix[j]);
                    assert(post[j] == prefix[j]);
                    assert(clause_satisfied(used0, post));
                } else if used0.contains(v) {
                    assert(post[i as int] == v);
                    assert(clause_satisfied(used0, post));
                } else if clause_satisfied(used0, post) {
                    let j = choose|j: int| 0 <= j < post.len() && used0.contains(post[j]);
                    if j < i as int {
                        assert(prefix[j] == post[j]);
                        assert(false);
                    } else {
                        assert(post[j] == v);
                        assert(false);
                    }
                }
            }
            i = i + 1;
        }
        proof {
            assert(clause@.take(clause.len() as int) =~= clause@);
        }
        if handled {
            return SolverState::Running;
        }
        let ghost cands = candidate_seq(inf0, used0, clause@);
        match best {
            None => SolverState::Halted,
            Some(b) => {
                let w = b.2;
                proof {
                    let bt = (b.0 as int, b.1 as int, b.2);
                    assert(is_selected(cands, bt));
                    assert(is_selected(cands, selected(cands)));
                    lemma_selected_unique(cands, bt, selected(cands));
                    lemma_candidate_member(inf0, used0, clause@, bt);
                    let k = choose|k: int| 0 <= k < clause@.len() && clause@[k] == w;
                    assert(valid_lit(w));
                    lemma_neg_lit(w);
                }
                self.used.insert(w);
                proof {
                    assert forall|l: isize| self.used@.contains(l) implies valid_lit(l)
                        && !self.used@.contains(neg_lit(l)) by {
                        if l == w {
                            assert(neg_lit(w) != w);
                            assert(!used0.contains(neg_lit(w)));
                        } else {
                            assert(used0.contains(l));
                            assert(valid_lit(l));
                            lemma_neg_lit(l);
                            assert(neg_lit(l) != w) by {
                                if neg_lit(l) == w {
                                    lemma_neg_lit(l);
                                    assert(neg_lit(w) == l);
                                    assert(used0.contains(neg_lit(w)));
                                    assert(false);
                                }
                            }
                        }
                    }
                    assert(self.used@.len() <= used0.len() + 1);
                    assert(used0.len() <= self.used@.len());
                }
                SolverState::Running
            },
        }
    }

    /// The remaining-occurrence count recorded for a literal, if any.
    pub fn influence_of(&self, l: isize) -> (r: Option<usize>)
        ensures
            r == if self.influences().contains_key(l) {
                Some(self.influences()[l])
            } else {
                None::<usize>
            },
    {
        influence_get(&self.influence, l)
    }
}

/// Mutual exclusion law: a well-formed solver never holds both a literal and
/// its negation in the commitment set.
pub proof fn lemma_mutual_exclusion(s: Solver, l: isize)
    requires
        s.wf(),
    ensures
        !(s.committed().contains(l) && s.committed().contains(neg_lit(l))),
{
    if s.committed().contains(l) {
        assert(valid_lit(l) && !s.committed().contains(neg_lit(l)));
    }
}

/// Influence accounting law, one clause: consuming a clause of pairwise
/// distinct literals lowers the entry of each literal the clause contains by
/// exactly one and leaves every other entry unchanged.
pub proof fn lemma_influence_accounting(inf: Map<isize, usize>, c: Seq<isize>, l: isize)
    requires
        forall|i: int, j: int| 0 <= i < j < c.len() ==> c[i] != c[j],
        inf.contains_key(l),
        c.contains(l) ==> inf[l] >= 1,
    ensures
        consume_clause(inf, c).contains_key(l),
        consume_clause(inf, c)[l] == inf[l] - (if c.contains(l) {
            1int
        } else {
            0int
        }),
    decreases c.len(),
{
    if c.len() > 0 {
        let v = c[0];
        let inf1 = consume_lit(inf, v);
        let rest = c.drop_first();
        assert(forall|i: int, j: int| 0 <= i < j < rest.len() ==> rest[i] != rest[j]);
        if v == l {
            assert(c.contains(l));
            if rest.contains(l) {
                let j = choose|j: int| 0 <= j < rest.len() && rest[j] == l;
                assert(c[j + 1] == l);
                assert(false);
            }
            lemma_influence_accounting(inf1, rest, l);
        } else {
            if rest.contains(l) {
                let j = choose|j: int| 0 <= j < rest.len() && rest[j] == l;
                assert(c[j + 1] == l);
                assert(c.contains(l));
            }
            if c.contains(l) {
                let j = choose|j: int| 0 <= j < c.len() && c[j] == l;
                assert(j > 0);
                assert(rest[j - 1] == l);
                assert(rest.contains(l));
            }
            lemma_influence_accounting(inf1, rest, l);
        }
    }
}

/// The number of clauses of a set that contain a literal.
pub open spec fn clauses_containing(cs: Seq<Seq<isize>>, l: isize) -> nat
    decreases cs.len(),
{
    if cs.len() == 0 {
        0
    } else {
        (if cs[0].contains(l) {
            1nat
        } else {
            0nat
        }) + clauses_containing(cs.drop_first(), l)
    }
}

/// The influence table after the clauses of a set have been consumed in order.
pub open spec fn consume_all(inf: Map<isize, usize>, cs: Seq<Seq<isize>>) -> Map<isize, usize>
    decreases cs.len(),
{
    if cs.len() == 0 {
        inf
    } else {
        consume_all(consume_clause(inf, cs[0]), cs.drop_first())
    }
}

/// Influence accounting law, a whole run: after the clauses of a set have all
/// been consumed, the remaining count of a literal is its initial count less
/// the number of consumed clauses that contain it.
pub proof fn lemma_influence_accounting_run(inf: Map<isize, usize>, cs: Seq<Seq<isize>>, l: isize)
    requires
        forall|k: int, i: int, j: int|
            0 <= k < cs.len() && 0 <= i < j < cs[k].len() ==> cs[k][i] != cs[k][j],
        inf.contains_key(l),
        inf[l] >= clauses_containing(cs, l),
    ensures
        consume_all(inf, cs).contains_key(l),
        consume_all(inf, cs)[l] == inf[l] - clauses_containing(cs, l),
    decreases cs.len(),
{
    if cs.len() > 0 {
        let rest = cs.drop_first();
        lemma_influence_accounting(inf, cs[0], l);
        assert(forall|k: int, i: int, j: int|
            0 <= k < rest.len() && 0 <= i < j < rest[k].len() ==> rest[k][i] != rest[k][j]);
        lemma_influence_accounting_run(consume_clause(inf, cs[0]), rest, l);
    }
}

/// One `process` call halts exactly when the clause is not yet satisfied and
/// offers no candidate.
pub open spec fn step_halts(inf: Map<isize, usize>, used: Set<isize>, c: Seq<isize>) -> bool {
    !clause_satisfied(used, c) && candidate_seq(inf, used, c).len() == 0
}

/// The commitment set after one `process` call.
pub open spec fn step_committed(inf: Map<isize, usize>, used: Set<isize>, c: Seq<isize>) -> Set<
    isize,
> {
    if clause_satisfied(used, c) {
        used
    } else {
        let cands = candidate_seq(inf, used, c);
        if cands.len() == 0 {
            used
        } else {
            used.insert(selected(cands).2)
        }
    }
}

/// The commitment set after the clauses of a set have been fed in order.
pub open spec fn run_committed(inf: Map<isize, usize>, used: Set<isize>, cs: Seq<Seq<isize>>) -> Set<
    isize,
>
    decreases cs.len(),
{
    if cs.len() == 0 {
        used
    } else {
        run_committed(consume_clause(inf, cs[0]), step_committed(inf, used, cs[0]), cs.drop_first())
    }
}

/// Monotonicity law over a whole run: a literal committed at some point stays
/// committed through every later clause; nothing is ever removed.
pub proof fn lemma_run_committed_monotone(
    inf: Map<isize, usize>,
    used: Set<isize>,
    cs: Seq<Seq<isize>>,
)
    ensures
        forall|l: isize|
            used.contains(l) ==> #[trigger] run_committed(inf, used, cs).contains(l),
    decreases cs.len(),
{
    if cs.len() > 0 {
        let used1 = step_committed(inf, used, cs[0]);
        lemma_run_committed_monotone(consume_clause(inf, cs[0]), used1, cs.drop_first());
        assert forall|l: isize| used.contains(l) implies #[trigger] run_committed(
            inf,
            used,
            cs,
        ).contains(l) by {
            assert(used1.contains(l));
            assert(run_committed(consume_clause(inf, cs[0]), used1, cs.drop_first()).contains(l));
        }
    }
}

/// Whether feeding the clauses of a set in order reaches a halting clause.
pub open spec fn run_halts(inf: Map<isize, usize>, used: Set<isize>, cs: Seq<Seq<isize>>) -> bool
    decreases cs.len(),
{
    if cs.len() == 0 {
        false
    } else if step_halts(inf, used, cs[0]) {
        true
    } else {
        run_halts(consume_clause(inf, cs[0]), step_committed(inf, used, cs[0]), cs.drop_first())
    }
}

/// Feeding one more clause folds the run one step further.
proof fn lemma_run_push(inf: Map<isize, usize>, used: Set<isize>, cs: Seq<Seq<isize>>, c: Seq<isize>)
    ensures
        consume_all(inf, cs.push(c)) == consume_clause(consume_all(inf, cs), c),
        run_committed(inf, used, cs.push(c)) == step_committed(
            consume_all(inf, cs),
            run_committed(inf, used, cs),
            c,
        ),
        run_halts(inf, used, cs.push(c)) == (run_halts(inf, used, cs) || step_halts(
            consume_all(inf, cs),
            run_committed(inf, used, cs),
            c,
        )),
    decreases cs.len(),
{
    reveal_with_fuel(consume_all, 2);
    reveal_with_fuel(run_committed, 2);
    reveal_with_fuel(run_halts, 2);
    if cs.len() == 0 {
        assert(cs.push(c)[0] == c);
        assert(cs.push(c).drop_first() =~= Seq::<Seq<isize>>::empty());
    } else {
        assert(cs.push(c)[0] == cs[0]);
        assert(cs.push(c).drop_first() =~= cs.drop_first().push(c));
        lemma_run_push(
            consume_clause(inf, cs[0]),
            step_committed(inf, used, cs[0]),
            cs.drop_first(),
            c,
        );
    }
}

/// A run that halts on a prefix halts on the whole set.
proof fn lemma_run_halts_take(inf: Map<isize, usize>, used: Set<isize>, cs: Seq<Seq<isize>>, k: int)
    requires
        0 <= k <= cs.len(),
        run_halts(inf, used, cs.take(k)),
    ensures
        run_halts(inf, used, cs),
    decreases k,
{
    assert(cs.take(k).len() == k);
    assert(k > 0);
    assert(cs.take(k)[0] == cs[0]);
    if step_halts(inf, used, cs[0]) {
    } else {
        assert(cs.take(k).drop_first() =~= cs.drop_first().take(k - 1));
        lemma_run_halts_take(
            consume_clause(inf, cs[0]),
            step_committed(inf, used, cs[0]),
            cs.drop_first(),
            k - 1,
        );
    }
}

/// The influence table a clause set starts with: every literal that occurs
/// somewhere, mapped to its number of occurrences.
pub open spec fn initial_influence(cs: Seq<Seq<isize>>) -> Map<isize, usize> {
    Map::new(|l: isize| occurrences(cs, l) > 0, |l: isize| occurrences(cs, l) as usize)
}

/// Run the whole pipeline of the engine over an ordered clause set: build the
/// influence table by scanning every clause, then feed the clauses in order
/// to a fresh solver, stopping at the first halt. Returns whether the greedy
/// strategy survived every clause.
pub fn process_clauses(clauses: &Vec<InputClause>) -> (result: bool)
    requires
        forall|k: int| 0 <= k < clauses@.len() ==> clause_lits_ok(#[trigger] views_of(clauses@)[k]),
        total_literals(views_of(clauses@)) <= usize::MAX,
    ensures
        result == !run_halts(
            initial_influence(views_of(clauses@)),
            Set::<isize>::empty(),
            views_of(clauses@),
        ),
{
    let ghost all = views_of(clauses@);
    let ghost init = initial_influence(all);
    let influence = build_influence(clauses);
    proof {
        assert forall|l: isize| true implies occurrences(all, l) <= usize::MAX by {
            lemma_occurrences_le_total(all, l);
        }
        assert(influence@ =~= init);
        assert(all.take(0) =~= Seq::<Seq<isize>>::empty());
        assert(all.skip(0) =~= all);
    }
    let mut solver = Solver::new(influence);
    let mut k: usize = 0;
    while k < clauses.len()
        invariant
            k <= clauses.len(),
            all == views_of(clauses@),
            all.len() == clauses@.len(),
            init == initial_influence(all),
            forall|kk: int| 0 <= kk < all.len() ==> clause_lits_ok(#[trigger] all[kk]),
            total_literals(all) <= usize::MAX,
            solver.wf(),
            solver.influences() == consume_all(init, all.take(k as int)),
            solver.committed() == run_committed(init, Set::<isize>::empty(), all.take(k as int)),
            !run_halts(init, Set::<isize>::empty(), all.take(k as int)),
            forall|l: isize|
                #[trigger] solver.influences().contains_key(l) <==> occurrences(all, l) > 0,
            forall|l: isize| #[trigger]
                solver.influences().contains_key(l) ==> solver.influences()[l] == occurrences(
                    all.skip(k as int),
                    l,
                ),
        decreases clauses.len() - k,
    {
        let c = copy_clause(&clauses[k]);
        let ghost pre = *&solver;
        proof {
            assert(all[k as int] == clauses@[k as int]@);
            assert(c@ == all[k as int]);
            assert forall|ii: int| 0 <= ii < c@.len() implies solver.influences().contains_key(
                #[trigger] c@[ii],
            ) && solver.influences()[c@[ii]] >= 1 by {
                let v = c@[ii];
                assert(all[k as int].contains(v));
                lemma_occurrences_in_contains(all[k as int], v);
                lemma_occurrences_skip_unfold(all, k as int, v);
                lemma_occurrences_skip_le(all, k as int, v);
            }
            assert(clause_ok(solver.influences(), c@));
        }
        let st = solver.add_clause(c);
        proof {
            assert(all.take(k as int).push(all[k as int]) =~= all.take(k as int + 1));
            lemma_run_push(init, Set::<isize>::empty(), all.take(k as int), all[k as int]);
            assert forall|l: isize| #[trigger]
                solver.influences().contains_key(l) implies solver.influences()[l] == occurrences(
                all.skip(k as int + 1),
                l,
            ) by {
                lemma_consume_frame(pre.influences(), all[k as int], l);
                assert(pre.influences().contains_key(l));
                lemma_influence_accounting(pre.influences(), all[k as int], l);
                lemma_occurrences_skip_unfold(all, k as int, l);
                lemma_occurrences_in_contains(all[k as int], l);
                lemma_occurrences_in_distinct(all[k as int], l);
            }
            assert forall|l: isize| #[trigger]
                solver.influences().contains_key(l) <==> occurrences(all, l) > 0 by {
                lemma_consume_frame(pre.influences(), all[k as int], l);
            }
        }
        if st != SolverState::Running {
            proof {
                assert(step_halts(pre.influences(), pre.committed(), all[k as int]));
                assert(run_halts(init, Set::<isize>::empty(), all.take(k as int + 1)));
                lemma_run_halts_take(init, Set::<isize>::empty(), all, k as int + 1);
            }
            return false;
        }
        proof {
            assert(!step_halts(pre.influences(), pre.committed(), all[k as int]));
        }
        k = k + 1;
    }
    proof {
        assert(all.take(clauses.len() as int) =~= all);
    }
    true
}

/// Relies on std's `HashMap::get` (rustc_hash's `FxHashMap` is that map with
/// the deterministic Fx hasher): returns the value stored at the key, if any.
#[verifier::external_body]
pub(crate) fn influence_get(m: &FxHashMap<isize, usize>, k: isize) -> (r: Option<usize>)
    ensures
        r == if m@.contains_key(k) {
            Some(m@[k])
        } else {
            None::<usize>
        },
{
    m.get(&k).copied()
}

/// Relies on std's `HashMap::insert` (rustc_hash's `FxHashMap` is that map
/// with the deterministic Fx hasher): maps the key to the value, replacing
/// any earlier entry.
#[verifier::external_body]
pub(crate) fn influence_insert(m: &mut FxHashMap<isize, usize>, k: isize, v: usize)
    ensures
        final(m)@ == old(m)@.insert(k, v),
{
    m.insert(k, v);
}

} // verus!
