use cdcl2::clauses::Clause;
use cdcl2::state::{DerivationGraphNode, FullUnitPropResult, State};
use cdcl2::variables::{Atom, VarRef};

fn lit(id: usize, polarity: bool) -> Atom {
    VarRef { id }.as_atom(polarity)
}

fn clause_true(clause: &[Atom], values: &[bool]) -> bool {
    clause.iter().any(|a| values[a.get_var().id] == a.polarity())
}

fn brute_force(clauses: &[Vec<Atom>], n: usize) -> bool {
    (0u32..(1u32 << n)).any(|bits| {
        let values: Vec<bool> = (0..n).map(|v| bits & (1 << v) != 0).collect();
        clauses.iter().all(|c| clause_true(c, &values))
    })
}

fn solve(clauses: &[Vec<Atom>], n: usize) -> (bool, State) {
    let mut state = State::new(clauses.iter().map(|c| Clause::new(c.clone())).collect(), n);
    let verdict = state.sat();
    (verdict, state)
}

#[test]
fn no_clauses_and_no_variables_is_sat() {
    let (verdict, state) = solve(&[], 0);
    assert!(verdict);
    assert!(state.assignments.is_empty());
    assert_eq!(state.assignment_stack.len(), 0);
}

#[test]
fn empty_clause_is_unsat() {
    let (verdict, state) = solve(&[vec![]], 1);
    assert!(!verdict);
    assert_eq!(state.assignment_stack.len(), 0);
}

#[test]
fn single_literal_clause_is_forced_at_level_zero() {
    let mut state = State::new(vec![Clause::new(vec![lit(0, false)])], 1);
    assert!(matches!(state.unit_prop_scan(), FullUnitPropResult::Done));
    assert_eq!(state.assignments, vec![Some(false)]);
    assert_eq!(state.assignment_stack.len(), 0);
    assert_eq!(state.assignment_stack.peek_stack().to_vec(), vec![lit(0, false)]);
    match &state.derivation_graph[0] {
        Some(DerivationGraphNode::Derivation { level, inputs }) => {
            assert_eq!(*level, 0);
            assert!(inputs.is_empty());
        }
        _ => panic!("expected a derivation"),
    }
}

#[test]
fn complementary_units_are_unsat_without_a_decision() {
    let mut state = State::new(
        vec![Clause::new(vec![lit(0, true)]), Clause::new(vec![lit(0, false)])],
        1,
    );
    assert!(!state.sat());
    assert_eq!(state.assignment_stack.len(), 0);
    assert_eq!(state.clauses.len(), 2);
    match &state.derivation_graph[0] {
        Some(node) => assert_eq!(node.level(), 0),
        None => panic!("expected a graph entry"),
    }
}

#[test]
fn propagation_reports_the_cut_of_the_falsified_clause() {
    let mut state = State::new(
        vec![
            Clause::new(vec![lit(0, true)]),
            Clause::new(vec![lit(1, true)]),
            Clause::new(vec![lit(0, false), lit(1, false)]),
        ],
        2,
    );
    match state.unit_prop_scan() {
        FullUnitPropResult::Conflict { inputs } => {
            assert_eq!(inputs, vec![lit(0, true), lit(1, true)]);
        }
        FullUnitPropResult::Done => panic!("expected a conflict"),
    }
}

#[test]
fn guess_picks_the_first_unset_variable() {
    let mut state = State::new(vec![Clause::new(vec![lit(0, true)])], 3);
    assert_eq!(state.guess(), Some(lit(0, true)));
    assert!(matches!(state.unit_prop_scan(), FullUnitPropResult::Done));
    assert_eq!(state.guess(), Some(lit(1, true)));
    state.make_guess(lit(1, true));
    assert_eq!(state.assignment_stack.len(), 1);
    assert_eq!(state.assignments, vec![Some(true), Some(true), None]);
    match &state.derivation_graph[1] {
        Some(DerivationGraphNode::Guess { level }) => assert_eq!(*level, 1),
        _ => panic!("expected a decision"),
    }
    state.make_guess(lit(2, true));
    assert_eq!(state.guess(), None);
    assert_eq!(state.assignment_stack.len(), 2);
}

#[test]
fn backjump_unsets_exactly_the_levels_above_the_target() {
    let mut state = State::new(vec![Clause::new(vec![lit(0, true)])], 4);
    assert!(matches!(state.unit_prop_scan(), FullUnitPropResult::Done));
    state.make_guess(lit(1, true));
    state.make_guess(lit(2, false));
    state.make_guess(lit(3, true));
    state.backjump(1);
    assert_eq!(state.assignment_stack.len(), 1);
    assert_eq!(state.assignments, vec![Some(true), Some(true), None, None]);
    assert!(state.derivation_graph[0].is_some());
    assert!(state.derivation_graph[1].is_some());
    assert!(state.derivation_graph[2].is_none());
    assert!(state.derivation_graph[3].is_none());
    state.backjump(0);
    assert_eq!(state.assignment_stack.len(), 0);
    assert_eq!(state.assignments, vec![Some(true), None, None, None]);
    assert_eq!(state.assignment_stack.peek_stack().to_vec(), vec![lit(0, true)]);
}

#[test]
fn pigeonhole_three_into_two_is_unsat() {
    // pigeon p in hole h is variable 2 * p + h
    let mut clauses: Vec<Vec<Atom>> = Vec::new();
    for p in 0..3 {
        clauses.push(vec![lit(2 * p, true), lit(2 * p + 1, true)]);
    }
    for h in 0..2 {
        for p in 0..3 {
            for q in (p + 1)..3 {
                clauses.push(vec![lit(2 * p + h, false), lit(2 * q + h, false)]);
            }
        }
    }
    let (verdict, state) = solve(&clauses, 6);
    assert!(!verdict);
    assert!(!brute_force(&clauses, 6));
    assert_eq!(state.assignment_stack.len(), 0);
    assert!(state.clauses.len() > clauses.len());
}

#[test]
fn verdict_agrees_with_exhaustive_search() {
    let mut seed: u64 = 0x2545_f491_4f6c_dd1d;
    let mut next = move |bound: u64| {
        seed ^= seed << 13;
        seed ^= seed >> 7;
        seed ^= seed << 17;
        seed % bound
    };
    let mut seen_sat = 0;
    let mut seen_unsat = 0;
    for _ in 0..400 {
        let n = 1 + next(5) as usize;
        let count = next(12) as usize;
        let mut clauses: Vec<Vec<Atom>> = Vec::new();
        for _ in 0..count {
            let width = 1 + next(3) as usize;
            let mut clause = Vec::new();
            for _ in 0..width {
                clause.push(lit(next(n as u64) as usize, next(2) == 0));
            }
            clauses.push(clause);
        }
        let (verdict, state) = solve(&clauses, n);
        assert_eq!(verdict, brute_force(&clauses, n));
        if verdict {
            seen_sat += 1;
            let values: Vec<bool> = state.assignments.iter().map(|v| v.unwrap()).collect();
            for c in clauses.iter() {
                assert!(clause_true(c, &values));
            }
        } else {
            seen_unsat += 1;
            assert_eq!(state.assignment_stack.len(), 0);
        }
        // the given clauses stay in front, learned clauses follow
        assert!(state.clauses.len() >= clauses.len());
        for (kept, given) in state.clauses.iter().zip(clauses.iter()) {
            assert_eq!(&kept.body, given);
        }
        // assignment, trail and graph describe the same variables
        for v in 0..n {
            assert_eq!(state.assignments[v].is_some(), state.derivation_graph[v].is_some());
        }
        // a second run gives the same verdict and the same assignment
        let (again, other) = solve(&clauses, n);
        assert_eq!(again, verdict);
        assert_eq!(other.assignments, state.assignments);
    }
    assert!(seen_sat > 0);
    assert!(seen_unsat > 0);
}
