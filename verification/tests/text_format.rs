use cdcl2::cnf::{intern, name_clauses, parse, render_sat, render_unsat, split_literal};
use cdcl2::printing::write_clauses;
use cdcl2::variables::VarRef;
use cdcl2::words::{blank_line, read_lines, space};

#[test]
fn separators_are_the_six_blank_bytes() {
    for b in 0u8..=255 {
        let expected = matches!(b, b' ' | b'\t' | b'\n' | 0x0b | 0x0c | b'\r');
        assert_eq!(space(b), expected);
    }
}

#[test]
fn blank_lines_hold_only_separators() {
    assert!(blank_line(b""));
    assert!(blank_line(b" \t\r"));
    assert!(!blank_line(b"  a "));
}

#[test]
fn lines_are_split_into_words() {
    let lines = read_lines(b"  a  !b\tc\n!d\n\nzzz\n");
    assert_eq!(
        lines,
        vec![
            vec![b"a".to_vec(), b"!b".to_vec(), b"c".to_vec()],
            vec![b"!d".to_vec()],
        ]
    );
    assert_eq!(read_lines(b""), Vec::<Vec<Vec<u8>>>::new());
    assert_eq!(read_lines(b"\n"), Vec::<Vec<Vec<u8>>>::new());
    assert_eq!(read_lines(b"x"), vec![vec![b"x".to_vec()]]);
}

#[test]
fn words_split_into_sign_and_name() {
    assert_eq!(split_literal(&b"abc".to_vec()), (b"abc".to_vec(), true));
    assert_eq!(split_literal(&b"!abc".to_vec()), (b"abc".to_vec(), false));
    assert_eq!(split_literal(&b"!!a".to_vec()), (b"!a".to_vec(), false));
    assert_eq!(split_literal(&b"!".to_vec()), (b"".to_vec(), false));
}

#[test]
fn names_are_numbered_in_order_of_first_appearance() {
    let mut names: Vec<Vec<u8>> = Vec::new();
    assert_eq!(intern(&mut names, b"x".to_vec()), 0);
    assert_eq!(intern(&mut names, b"y".to_vec()), 1);
    assert_eq!(intern(&mut names, b"x".to_vec()), 0);
    assert_eq!(intern(&mut names, b"xy".to_vec()), 2);
    assert_eq!(names, vec![b"x".to_vec(), b"y".to_vec(), b"xy".to_vec()]);
}

#[test]
fn parsing_builds_clauses_over_the_names() {
    let f = parse(b"b !a\na c !b\n");
    assert_eq!(f.names, vec![b"b".to_vec(), b"a".to_vec(), b"c".to_vec()]);
    assert_eq!(f.clauses.len(), 2);
    assert_eq!(
        f.clauses[0].body,
        vec![VarRef { id: 0 }.as_atom(true), VarRef { id: 1 }.as_atom(false)]
    );
    assert_eq!(
        f.clauses[1].body,
        vec![
            VarRef { id: 1 }.as_atom(true),
            VarRef { id: 2 }.as_atom(true),
            VarRef { id: 0 }.as_atom(false),
        ]
    );
    let g = name_clauses(&vec![vec![b"b".to_vec(), b"!a".to_vec()]]);
    assert_eq!(g.names, vec![b"b".to_vec(), b"a".to_vec()]);
    assert_eq!(g.clauses[0].body, f.clauses[0].body);
}

#[test]
fn reports_list_every_variable() {
    let names = vec![b"p".to_vec(), b"q".to_vec(), b"r".to_vec()];
    let values = vec![Some(true), Some(false), None];
    assert_eq!(render_sat(&names, &values), b"SAT\np 1\nq 0\nr _\n".to_vec());
    assert_eq!(render_unsat(), b"UNSAT\n".to_vec());
}

#[test]
fn literals_and_clauses_print_as_text() {
    assert_eq!(VarRef { id: 0 }.to_text(), b"0".to_vec());
    assert_eq!(VarRef { id: 4095 }.to_text(), b"4095".to_vec());
    assert_eq!(VarRef { id: 12 }.as_atom(true).to_text(), b"12".to_vec());
    assert_eq!(VarRef { id: 12 }.as_atom(false).to_text(), b"!12".to_vec());
    let f = parse(b"b !a\na c !b\n");
    assert_eq!(f.clauses[0].to_text(), b"0 !1 ".to_vec());
    assert_eq!(f.clauses[1].to_text(), b"1 2 !0 ".to_vec());
}

#[test]
fn printing_parsed_clauses_and_parsing_again_gives_the_same_clauses() {
    let f = parse(b"x !y z\n!x w\ny !w q\n!q\n");
    let printed = write_clauses(&f.clauses);
    assert_eq!(printed, b"0 !1 2 \n!0 3 \n1 !3 4 \n!4 \n".to_vec());
    let g = parse(&printed);
    assert_eq!(g.clauses.len(), f.clauses.len());
    for (a, b) in f.clauses.iter().zip(g.clauses.iter()) {
        assert_eq!(a.body, b.body);
    }
    assert_eq!(cdcl2::run_cnf(&printed).starts_with(b"SAT\n"), cdcl2::run_cnf(b"x !y z\n!x w\ny !w q\n!q\n").starts_with(b"SAT\n"));
}
