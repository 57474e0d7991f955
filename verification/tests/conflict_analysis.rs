use cdcl2::clauses::Clause;
use cdcl2::state::{DerivationGraphNode, FullUnitPropResult, State};
use cdcl2::variables::VarRef;

#[test]
fn test_analyse_conflict_realistic() {
    // Clauses: (!a, b), (!a, !b)
    // Assign a = true at level 1 (decision)
    // Derive !b at level 1 from (!a, !b) and a = true
    // Conflict between !a and !b
    let mut state = State::new(
        vec![
            Clause::new(vec![VarRef { id: 0 }.as_atom(false), VarRef { id: 1 }.as_atom(true)]),
            Clause::new(vec![VarRef { id: 0 }.as_atom(false), VarRef { id: 1 }.as_atom(false)]),
        ],
        2,
    );
    // Level 1: a = true (decision)
    state.assignment_stack.push_stack();
    state.assignment_stack.push_value(VarRef { id: 0 }.as_atom(true));
    state.assignments[0] = Some(true);
    state.derivation_graph[0] = Some(DerivationGraphNode::Guess { level: 1 });
    // Derive !b at level 1 from (!a, !b)
    state.assignment_stack.push_value(VarRef { id: 1 }.as_atom(false));
    state.assignments[1] = Some(false);
    state.derivation_graph[1] = Some(DerivationGraphNode::Derivation {
        level: 1,
        inputs: vec![VarRef { id: 0 }.as_atom(false)],
    });
    // Conflict between !a and !b (i.e., both required to be true)
    let inputs = &[VarRef { id: 0 }.as_atom(false), VarRef { id: 1 }.as_atom(false)];
    let (conflict_clause, reset_level) = state.analyse_conflict(inputs);
    // The learned clause should be [!a]
    assert_eq!(conflict_clause.body, vec![VarRef { id: 0 }.as_atom(false)]);
    assert_eq!(reset_level, 0);
}

#[test]
fn analysis_after_a_real_decision_learns_the_negated_decision() {
    // (!a, b), (!a, !b): deciding a forces b and falsifies the second clause.
    let a = VarRef { id: 0 };
    let b = VarRef { id: 1 };
    let mut state = State::new(
        vec![
            Clause::new(vec![a.as_atom(false), b.as_atom(true)]),
            Clause::new(vec![a.as_atom(false), b.as_atom(false)]),
        ],
        2,
    );
    assert!(matches!(state.unit_prop_scan(), FullUnitPropResult::Done));
    let guess = state.guess();
    assert_eq!(guess, Some(a.as_atom(true)));
    state.make_guess(a.as_atom(true));
    assert_eq!(state.assignment_stack.len(), 1);
    let cut = match state.unit_prop_scan() {
        FullUnitPropResult::Conflict { inputs } => inputs,
        FullUnitPropResult::Done => panic!("expected a conflict"),
    };
    assert_eq!(cut, vec![a.as_atom(true), b.as_atom(true)]);
    let (learned, reset_level) = state.analyse_conflict(&cut);
    assert_eq!(learned.body, vec![a.as_atom(false)]);
    assert!(reset_level < state.assignment_stack.len());
    assert_eq!(reset_level, 0);
    // the learned clause is false now
    for lit in learned.body.iter() {
        assert_eq!(state.assignments[lit.get_var().id], Some(!lit.polarity()));
    }
    state.learn(learned);
    state.backjump(reset_level);
    assert_eq!(state.assignment_stack.len(), 0);
    assert_eq!(state.assignments, vec![None, None]);
    assert!(state.derivation_graph.iter().all(|n| n.is_none()));
    // after the jump the learned clause is unit and forces !a at level 0
    assert!(matches!(state.unit_prop_scan(), FullUnitPropResult::Done));
    assert_eq!(state.assignments[0], Some(false));
    match &state.derivation_graph[0] {
        Some(node) => assert_eq!(node.level(), 0),
        None => panic!("expected a graph entry"),
    }
}

#[test]
fn analysis_keeps_lower_level_reasons() {
    // x decided at level 1, a decided at level 2; (!x !a b), (!x !a !b).
    let x = VarRef { id: 0 };
    let a = VarRef { id: 1 };
    let b = VarRef { id: 2 };
    let mut state = State::new(
        vec![
            Clause::new(vec![x.as_atom(false), a.as_atom(false), b.as_atom(true)]),
            Clause::new(vec![x.as_atom(false), a.as_atom(false), b.as_atom(false)]),
        ],
        3,
    );
    state.make_guess(x.as_atom(true));
    assert!(matches!(state.unit_prop_scan(), FullUnitPropResult::Done));
    state.make_guess(a.as_atom(true));
    let cut = match state.unit_prop_scan() {
        FullUnitPropResult::Conflict { inputs } => inputs,
        FullUnitPropResult::Done => panic!("expected a conflict"),
    };
    let (learned, reset_level) = state.analyse_conflict(&cut);
    assert_eq!(learned.body, vec![x.as_atom(false), a.as_atom(false)]);
    assert_eq!(reset_level, 1);
    state.learn(learned);
    state.backjump(1);
    assert_eq!(state.assignment_stack.len(), 1);
    assert_eq!(state.assignments, vec![Some(true), None, None]);
    assert_eq!(state.assignment_stack.peek_stack().to_vec(), vec![x.as_atom(true)]);
}
