use teleora::statement::frame::{FrameGenerator, empty, singleton};
use teleora::statement::perm::PermutationFrameIterator;
use teleora::statement::{Atom, Collection, Float, Frame, Integer, List, Statement, UList, Variable};

fn var(name: &str) -> Variable {
    Variable { name: name.to_string() }
}

fn v(name: &str) -> Statement {
    Statement::Variable(var(name))
}

fn num(x: i32) -> Statement {
    Statement::Integer(Integer(x))
}

fn atom(name: &str) -> Statement {
    Statement::Atom(Atom(name.to_string()))
}

fn float(x: f32) -> Statement {
    Statement::Float(Float(x.to_bits()))
}

fn list(items: Vec<Statement>, ispiped: bool) -> Statement {
    Statement::List(List::new(Collection::new(items), ispiped))
}

fn seq_match(a: Vec<Statement>, b: Vec<Statement>, frame: &Frame) -> Vec<Frame> {
    let sa = Collection::new(a);
    let sb = Collection::new(b);
    Frame::evaluate_sequence(&sa.as_ref(), &sb.as_ref(), frame)
}

#[test]
fn atom_matches_itself_with_no_bindings() {
    let frames = Frame::evaluate_statement(&atom("go"), &atom("go"), &Frame::new());
    assert_eq!(frames.len(), 1);
    assert!(frames[0].is_empty());
}

#[test]
fn different_atoms_do_not_match() {
    let frames = Frame::evaluate_statement(&atom("go"), &atom("stop"), &Frame::new());
    assert_eq!(frames.len(), 0);
}

#[test]
fn integers_match_by_value() {
    assert_eq!(Frame::evaluate_statement(&num(3), &num(3), &Frame::new()).len(), 1);
    assert_eq!(Frame::evaluate_statement(&num(3), &num(4), &Frame::new()).len(), 0);
}

#[test]
fn integer_and_atom_do_not_match() {
    assert_eq!(Frame::evaluate_statement(&num(3), &atom("3"), &Frame::new()).len(), 0);
}

#[test]
fn floats_match_as_f32_compares() {
    assert_eq!(Frame::evaluate_statement(&float(1.5), &float(1.5), &Frame::new()).len(), 1);
    assert_eq!(Frame::evaluate_statement(&float(1.5), &float(2.5), &Frame::new()).len(), 0);
    assert_eq!(Frame::evaluate_statement(&float(0.0), &float(-0.0), &Frame::new()).len(), 1);
    assert_eq!(Frame::evaluate_statement(&float(f32::NAN), &float(f32::NAN), &Frame::new()).len(), 0);
}

#[test]
fn free_variable_is_bound_to_the_value() {
    let frames = Frame::evaluate_statement(&v("X"), &num(7), &Frame::new());
    assert_eq!(frames.len(), 1);
    assert_eq!(frames[0].len(), 1);
    assert!(frames[0].get(&var("X")) == Some(&num(7)));
}

#[test]
fn variable_on_the_right_is_bound_too() {
    let frames = Frame::evaluate_statement(&atom("a"), &v("Y"), &Frame::new());
    assert_eq!(frames.len(), 1);
    assert!(frames[0].get(&var("Y")) == Some(&atom("a")));
}

#[test]
fn anonymous_variable_matches_anything_and_binds_nothing() {
    let frames = Frame::evaluate_statement(&v("_"), &num(7), &Frame::new());
    assert_eq!(frames.len(), 1);
    assert!(frames[0].is_empty());
    let frames = Frame::evaluate_statement(&list(vec![num(1)], false), &v("_"), &Frame::new());
    assert_eq!(frames.len(), 1);
    assert!(frames[0].is_empty());
}

#[test]
fn bound_variable_matches_only_its_value() {
    let mut frame = Frame::new();
    frame.insert(&var("X"), num(1));
    let same = Frame::evaluate_statement(&v("X"), &num(1), &frame);
    assert_eq!(same.len(), 1);
    assert!(same[0].is_empty());
    let other = Frame::evaluate_statement(&v("X"), &num(2), &frame);
    assert_eq!(other.len(), 0);
}

#[test]
fn sequence_binds_each_position() {
    let frames = seq_match(vec![v("X"), v("Y")], vec![num(1), atom("b")], &Frame::new());
    assert_eq!(frames.len(), 1);
    assert_eq!(frames[0].len(), 2);
    assert!(frames[0].get(&var("X")) == Some(&num(1)));
    assert!(frames[0].get(&var("Y")) == Some(&atom("b")));
}

#[test]
fn repeated_variable_must_match_the_same_value() {
    assert_eq!(seq_match(vec![v("X"), v("X")], vec![num(1), num(2)], &Frame::new()).len(), 0);
    let frames = seq_match(vec![v("X"), v("X")], vec![num(1), num(1)], &Frame::new());
    assert_eq!(frames.len(), 1);
    assert_eq!(frames[0].len(), 1);
}

#[test]
fn sequences_of_different_lengths_do_not_match() {
    assert_eq!(seq_match(vec![v("X")], vec![num(1), num(2)], &Frame::new()).len(), 0);
}

#[test]
fn matching_keeps_the_starting_bindings() {
    let mut start = Frame::new();
    start.insert(&var("Z"), num(9));
    let frames = seq_match(vec![v("X"), num(2)], vec![num(1), num(2)], &start);
    assert_eq!(frames.len(), 1);
    assert!(frames[0].get(&var("Z")) == Some(&num(9)));
    assert!(frames[0].get(&var("X")) == Some(&num(1)));
}

#[test]
fn lists_piped_alike_match_item_by_item() {
    let a = list(vec![v("H"), v("T")], true);
    let b = list(vec![num(1), list(vec![num(2)], false)], true);
    let frames = Frame::evaluate_statement(&a, &b, &Frame::new());
    assert_eq!(frames.len(), 1);
    assert!(frames[0].get(&var("H")) == Some(&num(1)));
    assert!(frames[0].get(&var("T")) == Some(&list(vec![num(2)], false)));
}

#[test]
fn piped_list_takes_the_rest_as_its_tail() {
    let pattern = list(vec![v("H"), v("T")], true);
    let value = list(vec![num(1), num(2), num(3)], false);
    let frames = Frame::evaluate_statement(&pattern, &value, &Frame::new());
    assert_eq!(frames.len(), 1);
    assert!(frames[0].get(&var("H")) == Some(&num(1)));
    assert!(frames[0].get(&var("T")) == Some(&list(vec![num(2), num(3)], false)));
    let frames = Frame::evaluate_statement(&value, &pattern, &Frame::new());
    assert_eq!(frames.len(), 1);
    assert!(frames[0].get(&var("T")) == Some(&list(vec![num(2), num(3)], false)));
}

#[test]
fn piped_list_longer_than_the_other_does_not_match() {
    let pattern = list(vec![v("A"), v("B"), v("T")], true);
    let value = list(vec![num(1)], false);
    assert_eq!(Frame::evaluate_statement(&pattern, &value, &Frame::new()).len(), 0);
}

#[test]
fn piped_tail_may_be_empty() {
    let pattern = list(vec![v("H"), v("T")], true);
    let value = list(vec![num(1)], false);
    let frames = Frame::evaluate_statement(&pattern, &value, &Frame::new());
    assert_eq!(frames.len(), 1);
    assert!(frames[0].get(&var("T")) == Some(&list(vec![], false)));
}

#[test]
fn unordered_lists_yield_no_frames() {
    let a = Statement::UList(UList::new(Collection::new(vec![num(1)]), false));
    let b = Statement::UList(UList::new(Collection::new(vec![num(1)]), false));
    assert_eq!(Frame::evaluate_statement(&a, &b, &Frame::new()).len(), 0);
    let l1 = UList::new(Collection::new(vec![num(1)]), false);
    let l2 = UList::new(Collection::new(vec![num(1)]), false);
    assert_eq!(Frame::evaluate_ulist(&l1, &l2, &Frame::new()).len(), 0);
}

#[test]
fn generator_extends_each_parent_in_order() {
    let mut p1 = Frame::new();
    p1.insert(&var("A"), num(1));
    let mut p2 = Frame::new();
    p2.insert(&var("A"), num(2));
    let frames = FrameGenerator::new_singlular(&v("X"), &atom("x"), vec![p1, p2]);
    assert_eq!(frames.len(), 2);
    assert!(frames[0].get(&var("A")) == Some(&num(1)));
    assert!(frames[1].get(&var("A")) == Some(&num(2)));
    assert!(frames[1].get(&var("X")) == Some(&atom("x")));
}

#[test]
fn generator_over_runs_drops_parents_that_fail() {
    let mut p1 = Frame::new();
    p1.insert(&var("X"), num(1));
    let mut p2 = Frame::new();
    p2.insert(&var("X"), num(2));
    let frames = FrameGenerator::new(&[v("X"), v("Y")], &[num(2), num(5)], vec![p1, p2]);
    assert_eq!(frames.len(), 1);
    assert!(frames[0].get(&var("X")) == Some(&num(2)));
    assert!(frames[0].get(&var("Y")) == Some(&num(5)));
}

#[test]
fn empty_and_singleton_runs() {
    let e: Vec<i32> = empty();
    assert!(e.is_empty());
    assert_eq!(singleton(4), vec![4]);
}

#[test]
fn permutation_frames_are_empty() {
    assert!(PermutationFrameIterator::new(vec![num(1)], vec![num(1)], &Frame::new()).is_empty());
}

fn list_of(items: Vec<Statement>, ispiped: bool) -> List {
    List::new(Collection::new(items), ispiped)
}

#[test]
fn matching_that_would_fail_outright_is_detected() {
    let empty_piped = list_of(vec![], true);
    let plain = list_of(vec![num(1)], false);
    assert!(!Frame::can_match_lists(&empty_piped, &plain, &Frame::new()));
    assert!(!Frame::can_match_lists(&plain, &empty_piped, &Frame::new()));
    let none: Vec<Statement> = vec![];
    let a = Collection::new(none.clone());
    let b = Collection::new(none);
    assert!(!Frame::can_match_sequences(&a.as_ref(), &b.as_ref(), &Frame::new()));
    assert!(!Frame::can_match_statements(&list(vec![], false), &list(vec![], false), &Frame::new()));
}

#[test]
fn matching_that_is_defined_is_detected() {
    let piped = list_of(vec![v("H"), v("T")], true);
    let plain = list_of(vec![num(1), num(2), num(3)], false);
    assert!(Frame::can_match_lists(&piped, &plain, &Frame::new()));
    assert!(Frame::can_match_statements(&atom("a"), &num(1), &Frame::new()));
    let a = Collection::new(vec![num(1)]);
    let b = Collection::new(vec![num(1), num(2)]);
    assert!(Frame::can_match_sequences(&a.as_ref(), &b.as_ref(), &Frame::new()));
    let parents = vec![Frame::new(), Frame::new()];
    assert!(FrameGenerator::can_match_under_each(&v("X"), &num(1), &parents));
    let xs = vec![num(1), num(2)];
    assert!(FrameGenerator::can_match_runs(&xs, &xs, vec![Frame::new()]));
    let none: Vec<Statement> = vec![];
    assert!(!FrameGenerator::can_match_runs(&none, &none, vec![Frame::new()]));
}

#[test]
fn matching_is_symmetric_when_one_side_has_no_variable() {
    let a = list(vec![v("H"), v("T")], true);
    let b = list(vec![num(1), num(2), num(3)], false);
    let left = Frame::evaluate_statement(&a, &b, &Frame::new());
    let right = Frame::evaluate_statement(&b, &a, &Frame::new());
    assert_eq!(left.len(), 1);
    assert_eq!(right.len(), 1);
    assert!(left[0].get(&var("H")) == Some(&num(1)));
    assert!(right[0].get(&var("H")) == Some(&num(1)));
    assert!(left[0].get(&var("T")) == right[0].get(&var("T")));
    assert!(right[0].get(&var("T")) == Some(&list(vec![num(2), num(3)], false)));
}

#[test]
fn lists_built_from_head_and_tail() {
    let piped = List::from_head_and_tail(Collection::new(vec![num(1)]), Some(v("T")));
    assert!(piped.ispiped);
    assert_eq!(piped.len(), 2);
    let plain = List::from_head_and_tail(Collection::new(vec![num(1), num(2)]), None);
    assert!(!plain.ispiped);
    assert_eq!(plain.len(), 2);
}

#[test]
fn a_lookup_that_goes_round_a_cycle_is_detected() {
    let mut frame = Frame::new();
    frame.insert(&var("X"), v("Y"));
    assert!(Frame::lookup_comes_to_an_end(&var("X"), &num(1), &frame));
    assert!(Frame::can_match_statements(&v("X"), &num(1), &frame));
    assert_eq!(Frame::evaluate_statement(&v("X"), &num(1), &frame).len(), 0);
    frame.insert(&var("Y"), v("X"));
    assert!(!Frame::lookup_comes_to_an_end(&var("X"), &num(1), &frame));
    assert!(!Frame::can_match_statements(&v("X"), &num(1), &frame));
    assert!(!Frame::can_match_statements(&num(1), &v("Y"), &frame));
    assert!(Frame::can_match_statements(&v("X"), &v("Y"), &frame));
}
