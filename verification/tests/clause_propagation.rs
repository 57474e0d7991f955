use cdcl2::clauses::{Clause, SingleUnitPropResult};
use cdcl2::variables::VarRef;

#[test]
fn test_unit_propagation_simple() {
    // Clause: a
    let mut clause = Clause::new(vec![VarRef { id: 0 }.as_atom(true)]);
    let assignments = vec![None];
    match clause.unit_prop_clause(&assignments) {
        SingleUnitPropResult::UnitProp { output, .. } => {
            assert_eq!(output, VarRef { id: 0 }.as_atom(true));
        }
        _ => panic!("Expected unit propagation"),
    }
}

#[test]
fn test_unit_propagation_conflict() {
    // Clause: a, assignment: a = false
    let mut clause = Clause::new(vec![VarRef { id: 0 }.as_atom(true)]);
    let assignments = vec![Some(false)];
    match clause.unit_prop_clause(&assignments) {
        SingleUnitPropResult::Conflict => {}
        _ => panic!("Expected conflict"),
    }
}

#[test]
fn test_unit_propagation_none() {
    // Clause: a b, assignments: a = false, b = true
    let mut clause = Clause::new(vec![
        VarRef { id: 0 }.as_atom(true),
        VarRef { id: 1 }.as_atom(true),
    ]);
    let assignments = vec![Some(false), Some(true)];
    match clause.unit_prop_clause(&assignments) {
        SingleUnitPropResult::NoProp => {}
        _ => panic!("Expected no propagation"),
    }
}

#[test]
fn unit_propagation_collects_reasons_in_order() {
    // Clause: !a b !c with a = true, c = true: b is forced by a and c.
    let a = VarRef { id: 0 };
    let b = VarRef { id: 1 };
    let c = VarRef { id: 2 };
    let mut clause = Clause::new(vec![a.as_atom(false), b.as_atom(true), c.as_atom(false)]);
    let assignments = vec![Some(true), None, Some(true)];
    match clause.unit_prop_clause(&assignments) {
        SingleUnitPropResult::UnitProp { inputs, output } => {
            assert_eq!(output, b.as_atom(true));
            assert_eq!(inputs, vec![a.as_atom(true), c.as_atom(true)]);
        }
        _ => panic!("Expected unit propagation"),
    }
}

#[test]
fn two_unset_literals_force_nothing() {
    let mut clause = Clause::new(vec![
        VarRef { id: 0 }.as_atom(true),
        VarRef { id: 1 }.as_atom(false),
    ]);
    let assignments = vec![None, None];
    assert_eq!(clause.unit_prop_clause(&assignments), SingleUnitPropResult::NoProp);
}

#[test]
fn repeated_unset_literal_is_not_unit() {
    let mut clause = Clause::new(vec![
        VarRef { id: 0 }.as_atom(true),
        VarRef { id: 0 }.as_atom(true),
    ]);
    let assignments = vec![None];
    assert_eq!(clause.unit_prop_clause(&assignments), SingleUnitPropResult::NoProp);
}

#[test]
fn empty_clause_is_a_conflict() {
    let mut clause = Clause::new(vec![]);
    let assignments: Vec<Option<bool>> = vec![];
    assert_eq!(clause.unit_prop_clause(&assignments), SingleUnitPropResult::Conflict);
}

#[test]
fn literal_negation_round_trip() {
    let a = VarRef { id: 7 }.as_atom(true);
    assert_eq!(a.negated().polarity(), false);
    assert_eq!(a.negated().get_var(), VarRef { id: 7 });
    assert_eq!(a.negated().negated(), a);
    assert_ne!(a.negated(), a);
}
