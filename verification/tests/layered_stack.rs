use cdcl2::stack_stack::StackStack;

#[test]
fn new_stack_has_one_empty_layer() {
    let s: StackStack<u32> = StackStack::new();
    assert_eq!(s.len(), 0);
    assert!(s.peek_stack().is_empty());
}

#[test]
fn values_go_to_the_top_layer() {
    let mut s: StackStack<u32> = StackStack::new();
    s.push_value(1);
    s.push_value(2);
    assert_eq!(s.peek_stack().to_vec(), vec![1, 2]);
    s.push_stack();
    assert_eq!(s.len(), 1);
    assert!(s.peek_stack().is_empty());
    s.push_value(3);
    s.push_value(4);
    s.push_value(5);
    assert_eq!(s.peek_stack().to_vec(), vec![3, 4, 5]);
}

#[test]
fn pop_yields_newest_first_and_restores_the_layer_below() {
    let mut s: StackStack<u32> = StackStack::new();
    s.push_value(1);
    s.push_stack();
    s.push_value(2);
    s.push_value(3);
    s.push_stack();
    assert_eq!(s.len(), 2);
    assert_eq!(s.pop_stack_iter(), Vec::<u32>::new());
    assert_eq!(s.len(), 1);
    assert_eq!(s.pop_stack_iter(), vec![3, 2]);
    assert_eq!(s.len(), 0);
    assert_eq!(s.peek_stack().to_vec(), vec![1]);
}
