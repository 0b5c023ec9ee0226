use obddimal::dimacs_text::{parse_dimacs, parse_dimacs_text, DimacsFailure};
use obddimal::dimacs::clauses_well_formed;

#[test]
fn reads_header_and_sorted_clauses() {
    let text = "c a comment\nc 1 first variable\np cnf 5 2\n3 -1 0\n2 -4 1 0\n";
    let inst = parse_dimacs_text(text).unwrap();
    assert_eq!(inst.no_variables, 5);
    assert_eq!(inst.no_clauses, 2);
    assert_eq!(inst.clauses, vec![vec![-1, 3], vec![-4, 1, 2]]);
}

#[test]
fn reads_crlf_lines_and_a_last_line_without_newline() {
    let text = "p cnf 3 2\r\n1 2 0\r\n-3 0";
    let inst = parse_dimacs_text(text).unwrap();
    assert_eq!(inst.no_variables, 3);
    assert_eq!(inst.clauses, vec![vec![1, 2], vec![-3]]);
}

#[test]
fn an_empty_line_is_unknown() {
    let text = "p cnf 1 1\n\n1 0\n";
    assert_eq!(parse_dimacs_text(text).err(), Some(DimacsFailure::UnknownLine(1)));
}

#[test]
fn a_second_header_is_unknown() {
    let text = "p cnf 1 1\np cnf 1 1\n1 0\n";
    assert_eq!(parse_dimacs_text(text).err(), Some(DimacsFailure::UnknownLine(1)));
}

#[test]
fn a_clause_without_its_zero_is_unknown() {
    assert_eq!(parse_dimacs_text("p cnf 2 1\n1 2\n").err(), Some(DimacsFailure::UnknownLine(1)));
    assert_eq!(parse_dimacs_text("p cnf 2 1\n1 2 0 \n").err(), Some(DimacsFailure::UnknownLine(1)));
    assert_eq!(parse_dimacs_text("p cnf 2 1\n 1 2 0\n").err(), Some(DimacsFailure::UnknownLine(1)));
    assert_eq!(parse_dimacs_text("0\n").err(), Some(DimacsFailure::UnknownLine(0)));
}

#[test]
fn numbers_that_do_not_fit_fail() {
    assert_eq!(parse_dimacs_text("p cnf 4294967296 1\n").err(), Some(DimacsFailure::BadNumber(0)));
    assert_eq!(parse_dimacs_text("p cnf 1 1\n2147483648 0\n").err(), Some(DimacsFailure::BadNumber(1)));
    assert_eq!(parse_dimacs_text("c 4294967296 name\n").err(), Some(DimacsFailure::BadNumber(0)));
}

#[test]
fn no_header_gives_zero_counts() {
    let inst = parse_dimacs_text("1 -2 0\n").unwrap();
    assert_eq!(inst.no_variables, 0);
    assert_eq!(inst.no_clauses, 0);
    assert_eq!(inst.clauses, vec![vec![-2, 1]]);
}

#[test]
fn clauses_well_formed_refuses_what_building_cannot_take() {
    assert!(clauses_well_formed(&vec![vec![1, -2], vec![3]]));
    assert!(clauses_well_formed(&vec![]));
    assert!(!clauses_well_formed(&vec![vec![1], vec![]]));
    assert!(!clauses_well_formed(&vec![vec![1, 0, 2]]));
    assert!(!clauses_well_formed(&vec![vec![i32::MIN]]));
}

#[test]
fn parse_dimacs_reads_a_valid_text() {
    let text = "c a comment\np cnf 3 2\n2 -1 0\n-3 1 0\n";
    let inst = parse_dimacs(text);
    assert_eq!(inst.no_variables, 3);
    assert_eq!(inst.no_clauses, 2);
    assert_eq!(inst.clauses, vec![vec![-1, 2], vec![-3, 1]]);
}
