use cnf_sat::dimacs::Parser;
use cnf_sat::influence::{build_influence, total_literal_count};
use cnf_sat::solver::process_clauses;
use cnf_sat::sorter::sort_clauses_by_len;

// Header parsing: comments and blank lines before the header are skipped,
// and the third and fourth tokens give the declared counts.
#[test]
fn parser_reads_header() {
    let text = b"c a comment\nc another\n\np cnf 3 2\n1 2 0\n-1 -2 0\n".to_vec();
    let parser = Parser::new(text).expect("header should parse");
    assert_eq!(parser.get_variables(), 3);
    assert_eq!(parser.get_clauses(), 2);
}

// Clause lines: whitespace-separated literals, the terminating zero dropped,
// comments and blank lines between clauses skipped, and the end of the input
// ends the stream.
#[test]
fn parser_reads_clauses() {
    let text = b"p cnf 3 3\n1 2 0\nc noise\n\n -1  -2 0\n3 0\n".to_vec();
    let mut parser = Parser::new(text).expect("header should parse");
    assert_eq!(parser.parse_next_line(), Some(vec![1, 2]));
    assert_eq!(parser.parse_next_line(), Some(vec![-1, -2]));
    assert_eq!(parser.parse_next_line(), Some(vec![3]));
    assert_eq!(parser.parse_next_line(), None);
}

// A zero anywhere in the line is dropped; literals after it are kept, and a
// leading plus sign is accepted on a literal.
#[test]
fn parser_drops_zeros_and_accepts_plus() {
    let text = b"p cnf 4 1\n1 0 +2 -0 3 0\n".to_vec();
    let mut parser = Parser::new(text).expect("header should parse");
    assert_eq!(parser.parse_next_line(), Some(vec![1, 2, 3]));
    assert_eq!(parser.parse_next_line(), None);
}

// A line with a token that is not an integer yields no clause.
#[test]
fn parser_rejects_bad_token() {
    let text = b"p cnf 2 1\n1 x 0\n".to_vec();
    let mut parser = Parser::new(text).expect("header should parse");
    assert_eq!(parser.parse_next_line(), None);
}

// A literal too large for the machine yields no clause; the largest
// representable magnitudes still parse.
#[test]
fn parser_literal_range() {
    let text =
        format!("p cnf 1 1\n{} {} 0\n99999999999999999999999999 0\n", isize::MAX, isize::MIN)
            .into_bytes();
    let mut parser = Parser::new(text).expect("header should parse");
    assert_eq!(parser.parse_next_line(), Some(vec![isize::MAX, isize::MIN]));
    assert_eq!(parser.parse_next_line(), None);
}

// An input without a header line yields no parser at all, and neither does a
// header whose counts are missing or not numbers.
#[test]
fn parser_rejects_bad_header() {
    assert!(Parser::new(b"c only comments\n1 2 0\n".to_vec()).is_none());
    assert!(Parser::new(b"p cnf 3\n".to_vec()).is_none());
    assert!(Parser::new(b"p cnf three 2\n".to_vec()).is_none());
    assert!(Parser::new(b"".to_vec()).is_none());
}

// Every token after the second on the header line must be an unsigned count.
#[test]
fn parser_rejects_bad_trailing_header_token() {
    assert!(Parser::new(b"p cnf 3 2 oops\n".to_vec()).is_none());
    let ok = Parser::new(b"p cnf 3 2 7\n".to_vec());
    assert!(ok.is_some());
}

// The influence table counts every occurrence of every literal across the
// whole clause set, and holds no entry for a literal that never occurs.
#[test]
fn influence_table_counts_occurrences() {
    let clauses: Vec<Vec<isize>> = vec![vec![1, 2], vec![-1, 2], vec![-1, -2]];
    let table = build_influence(&clauses);
    assert_eq!(table.get(&1).copied(), Some(1));
    assert_eq!(table.get(&2).copied(), Some(2));
    assert_eq!(table.get(&-1).copied(), Some(2));
    assert_eq!(table.get(&-2).copied(), Some(1));
    assert_eq!(table.get(&3).copied(), None);
    assert_eq!(table.len(), 4);
}

#[test]
fn total_literal_count_sums_lengths() {
    let clauses: Vec<Vec<isize>> = vec![vec![1, 2], vec![-1, 2], vec![-1, -2], vec![]];
    assert_eq!(total_literal_count(&clauses), Some(6));
    let empty: Vec<Vec<isize>> = Vec::new();
    assert_eq!(total_literal_count(&empty), Some(0));
}

// The whole pipeline over a clause set that the greedy strategy survives.
#[test]
fn process_clauses_survives() {
    let clauses: Vec<Vec<isize>> = vec![vec![1, 2], vec![-1, 2], vec![-1, -2]];
    assert!(process_clauses(&clauses));
}

// The whole pipeline over a clause set where a later clause is fully blocked.
#[test]
fn process_clauses_halts() {
    let clauses: Vec<Vec<isize>> = vec![vec![5], vec![-5]];
    assert!(!process_clauses(&clauses));
}

// Sorting by length is ascending and keeps equal-length clauses in the
// relative order they arrived in.
#[test]
fn sort_by_length_is_stable() {
    let clauses: Vec<Vec<isize>> =
        vec![vec![1, 2, 3], vec![4], vec![5, 6], vec![7], vec![8, 9]];
    let sorted = sort_clauses_by_len(clauses);
    assert_eq!(sorted, vec![vec![4], vec![7], vec![5, 6], vec![8, 9], vec![1, 2, 3]]);
}

// The sorted order feeds short clauses first, as the solver's heuristic
// assumes; end to end from the raw text.
#[test]
fn pipeline_from_text() {
    let text = b"c sample\np cnf 2 3\n1 2 0\n-1 2 0\n-1 -2 0\n".to_vec();
    let mut parser = Parser::new(text).expect("header should parse");
    let mut clauses: Vec<Vec<isize>> = Vec::new();
    while let Some(c) = parser.parse_next_line() {
        clauses.push(c);
    }
    let clauses = sort_clauses_by_len(clauses);
    assert_eq!(clauses.len(), 3);
    assert!(process_clauses(&clauses));
}
