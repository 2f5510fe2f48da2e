use cnf_sat::solver::{Solver, SolverState};
use rustc_hash::FxHashMap;

fn table(entries: &[(isize, usize)]) -> FxHashMap<isize, usize> {
    let mut m = FxHashMap::default();
    for (l, n) in entries {
        m.insert(*l, *n);
    }
    m
}

// Scenario: clause set {(1 2), (-1 2), (-1 -2)} with the influence table
// built from exactly those clauses. The first clause commits 2, whose
// negation has the lower remaining influence; the second is already
// satisfied by 2; the third still has -1 free and commits it.
#[test]
fn scenario_three_clauses_true_counts() {
    let influence = table(&[(1, 1), (2, 2), (-1, 2), (-2, 1)]);
    let mut solver = Solver::new(influence);

    assert_eq!(solver.add_clause(vec![1, 2]), SolverState::Running);
    assert!(solver.is_committed(2));
    assert!(!solver.is_committed(1));
    assert_eq!(solver.committed_count(), 1);

    assert_eq!(solver.add_clause(vec![-1, 2]), SolverState::Running);
    assert_eq!(solver.committed_count(), 1);

    assert_eq!(solver.add_clause(vec![-1, -2]), SolverState::Running);
    assert!(solver.is_committed(-1));
    assert_eq!(solver.committed_count(), 2);
}

// Scenario: the same clauses under a table where every literal starts at 2.
// The first clause ties on both keys and the tie-break picks the lowest
// literal, 1; the second is then forced to 2; the third has both literals'
// negations committed and halts.
#[test]
fn scenario_three_clauses_halts() {
    let influence = table(&[(1, 2), (2, 2), (-1, 2), (-2, 2)]);
    let mut solver = Solver::new(influence);

    assert_eq!(solver.add_clause(vec![1, 2]), SolverState::Running);
    assert!(solver.is_committed(1));
    assert!(!solver.is_committed(2));

    assert_eq!(solver.add_clause(vec![-1, 2]), SolverState::Running);
    assert!(solver.is_committed(2));

    assert_eq!(solver.add_clause(vec![-1, -2]), SolverState::Halted);
    // Terminal absorption: the halting call commits nothing ...
    assert_eq!(solver.committed_count(), 2);
    // ... but still consumes this clause's occurrences.
    assert_eq!(solver.influence_of(-1), Some(0));
    assert_eq!(solver.influence_of(-2), Some(1));
}

// Scenario: a single unit clause (5) on an empty commitment set commits its
// only literal and keeps running; the negation never occurs, so the sentinel
// key does not stop the sole candidate.
#[test]
fn scenario_unit_clause() {
    let influence = table(&[(5, 1)]);
    let mut solver = Solver::new(influence);

    assert_eq!(solver.add_clause(vec![5]), SolverState::Running);
    assert!(solver.is_committed(5));
    assert_eq!(solver.committed_count(), 1);
}

// Scenario: clause (5) then clause (-5). The second clause's sole literal has
// its negation committed, so there is no candidate and the run halts.
#[test]
fn scenario_unit_then_negation_halts() {
    let influence = table(&[(5, 1), (-5, 1)]);
    let mut solver = Solver::new(influence);

    assert_eq!(solver.add_clause(vec![5]), SolverState::Running);
    assert!(solver.is_committed(5));

    assert_eq!(solver.add_clause(vec![-5]), SolverState::Halted);
    assert_eq!(solver.committed_count(), 1);
    assert!(!solver.is_committed(-5));
}

// Scenario: clause (1 2 3) then (-1 -2 -3). The first commits exactly one of
// its literals (1, by the tie-break); the second still has two free
// candidates and keeps running, committing one of them.
#[test]
fn scenario_complement_still_running() {
    let influence = table(&[(1, 1), (2, 1), (3, 1), (-1, 1), (-2, 1), (-3, 1)]);
    let mut solver = Solver::new(influence);

    assert_eq!(solver.add_clause(vec![1, 2, 3]), SolverState::Running);
    assert!(solver.is_committed(1));
    assert_eq!(solver.committed_count(), 1);

    assert_eq!(solver.add_clause(vec![-1, -2, -3]), SolverState::Running);
    assert_eq!(solver.committed_count(), 2);
    assert!(solver.is_committed(-3));
}

// The sentinel for a missing negation is the largest key, so under the
// ascending selection order a literal whose negation occurs somewhere is
// preferred over one whose negation never occurs.
#[test]
fn sentinel_sorts_last() {
    let influence = table(&[(1, 1), (2, 1), (-1, 1)]);
    let mut solver = Solver::new(influence);
    assert_eq!(solver.add_clause(vec![1, 2]), SolverState::Running);
    assert!(solver.is_committed(1));
    assert!(!solver.is_committed(2));
}

// Influence accounting: every processed clause that contains a literal lowers
// its remaining count by exactly one, and no other count moves.
#[test]
fn influence_accounting_per_clause() {
    let influence = table(&[(1, 1), (2, 1), (3, 1), (-1, 1), (-2, 1), (-3, 1), (7, 4)]);
    let mut solver = Solver::new(influence);

    assert_eq!(solver.add_clause(vec![1, 2, 3]), SolverState::Running);
    assert_eq!(solver.influence_of(1), Some(0));
    assert_eq!(solver.influence_of(2), Some(0));
    assert_eq!(solver.influence_of(3), Some(0));
    assert_eq!(solver.influence_of(-1), Some(1));
    assert_eq!(solver.influence_of(7), Some(4));
    assert_eq!(solver.influence_of(9), None);

    assert_eq!(solver.add_clause(vec![-1, -2, -3]), SolverState::Running);
    assert_eq!(solver.influence_of(-1), Some(0));
    assert_eq!(solver.influence_of(-2), Some(0));
    assert_eq!(solver.influence_of(-3), Some(0));
    assert_eq!(solver.influence_of(7), Some(4));
}

// An already-satisfied clause needs no decision: the commitment set is
// unchanged even though the clause's occurrences are consumed.
#[test]
fn satisfied_clause_changes_no_commitment() {
    let influence = table(&[(4, 2), (6, 1), (-6, 1)]);
    let mut solver = Solver::new(influence);

    assert_eq!(solver.add_clause(vec![4]), SolverState::Running);
    assert!(solver.is_committed(4));
    assert_eq!(solver.committed_count(), 1);

    assert_eq!(solver.add_clause(vec![6, 4]), SolverState::Running);
    assert_eq!(solver.committed_count(), 1);
    assert!(!solver.is_committed(6));
    assert_eq!(solver.influence_of(6), Some(0));
    assert_eq!(solver.influence_of(4), Some(0));
}

// An empty clause offers no candidate at all and halts at once.
#[test]
fn empty_clause_halts() {
    let influence = table(&[]);
    let mut solver = Solver::new(influence);
    assert_eq!(solver.add_clause(vec![]), SolverState::Halted);
    assert_eq!(solver.committed_count(), 0);
}

// Commitments only grow: over a run, each committed literal stays committed.
#[test]
fn commitments_are_monotone() {
    let influence = table(&[(1, 1), (2, 2), (-1, 2), (-2, 1)]);
    let mut solver = Solver::new(influence);
    let clauses: Vec<Vec<isize>> = vec![vec![1, 2], vec![-1, 2], vec![-1, -2]];
    let mut seen: Vec<isize> = Vec::new();
    let mut last_count = 0;
    for c in clauses {
        solver.add_clause(c);
        let count = solver.committed_count();
        assert!(count >= last_count);
        assert!(count <= last_count + 1);
        last_count = count;
        for l in [-2isize, -1, 1, 2] {
            if solver.is_committed(l) && !seen.contains(&l) {
                seen.push(l);
            }
        }
        for l in &seen {
            assert!(solver.is_committed(*l));
        }
    }
}

// A literal and its negation are never both committed.
#[test]
fn mutual_exclusion_over_a_run() {
    let influence = table(&[(1, 2), (2, 2), (-1, 2), (-2, 2)]);
    let mut solver = Solver::new(influence);
    let clauses: Vec<Vec<isize>> = vec![vec![1, 2], vec![-1, 2], vec![-1, -2]];
    for c in clauses {
        let st = solver.add_clause(c);
        for l in [1isize, 2] {
            assert!(!(solver.is_committed(l) && solver.is_committed(-l)));
        }
        if st == SolverState::Halted {
            break;
        }
    }
}
