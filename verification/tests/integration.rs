use cdcl2::run_cnf;

#[test]
fn test_simple_sat() {
    let input = b"a b\n!a\n";
    let output = run_cnf(&input[..]);
    assert!(!output.is_empty());
    let output_str = String::from_utf8(output).unwrap();
    assert!(output_str.contains("SAT"));
}

#[test]
fn test_unsat() {
    let input = b"a\n!a\n";
    let output = run_cnf(&input[..]);
    assert!(!output.is_empty());
    let output_str = String::from_utf8(output).unwrap();
    assert!(output_str.contains("UNSAT"));
}

#[test]
fn test_trivial_sat() {
    let input = b"a\n\n";
    let output = run_cnf(&input[..]);
    assert!(!output.is_empty());
    let output_str = String::from_utf8(output).unwrap();
    assert!(output_str.contains("SAT"));
}

#[test]
fn test_conflict_with_two_clauses() {
    // Clauses: !a b and !a !b
    let input = b"!a b\n!a !b\n\n";
    let output = run_cnf(&input[..]);
    assert!(!output.is_empty());
    let output_str = String::from_utf8(output).unwrap();
    // The only way to satisfy both is a = false, b can be anything
    assert!(output_str.contains("SAT"));
    assert!(output_str.contains("a 0"));
}

#[test]
fn simple_sat_exact_report() {
    assert_eq!(run_cnf(b"a b\n!a\n"), b"SAT\na 0\nb 1\n".to_vec());
}

#[test]
fn unsat_exact_report() {
    assert_eq!(run_cnf(b"a\n!a\n"), b"UNSAT\n".to_vec());
}

#[test]
fn trivial_sat_exact_report() {
    assert_eq!(run_cnf(b"a\n\n"), b"SAT\na 1\n".to_vec());
}

#[test]
fn chain_of_implications_is_unsat() {
    assert_eq!(run_cnf(b"a b\n!a c\n!b c\n!c\n"), b"UNSAT\n".to_vec());
}

#[test]
fn three_literal_clause_forces_last() {
    assert_eq!(run_cnf(b"a b c\n!a\n!b\n"), b"SAT\na 0\nb 0\nc 1\n".to_vec());
}

#[test]
fn empty_input_is_sat_without_variables() {
    assert_eq!(run_cnf(b""), b"SAT\n".to_vec());
}

#[test]
fn blank_first_line_ends_the_input() {
    assert_eq!(run_cnf(b"\na\n!a\n"), b"SAT\n".to_vec());
    assert_eq!(run_cnf(b"  \t \na\n!a\n"), b"SAT\n".to_vec());
}

#[test]
fn clauses_after_a_blank_line_are_ignored() {
    assert_eq!(run_cnf(b"a\n\n!a\n"), b"SAT\na 1\n".to_vec());
}

#[test]
fn same_input_gives_the_same_report() {
    let input = b"x y z\n!x !y\n!y !z\n!x !z\ny w\n!w q\n";
    assert_eq!(run_cnf(input), run_cnf(input));
}

#[test]
fn last_line_needs_no_line_feed() {
    assert_eq!(run_cnf(b"a\n!b"), b"SAT\na 1\nb 0\n".to_vec());
}

#[test]
fn carriage_returns_and_tabs_separate() {
    assert_eq!(run_cnf(b"a\t!b\r\n!a\r\nb c\r\n"), b"SAT\na 0\nb 0\nc 1\n".to_vec());
    assert_eq!(run_cnf(b"a\t!b\r\nb c\r\n"), b"SAT\na 1\nb 1\nc 1\n".to_vec());
}
