use teleora::interpret::{Action, Condition, Goal, Head, Program, Rule};
use teleora::statement::{Atom, Collection, Integer, Statement, Variable};

fn goal(name: &str, args: Vec<Statement>) -> Goal {
    Goal::new(Head::new(Atom(name.to_string()), args), vec![Rule::new(vec![Condition], vec![Action])])
}

fn num(x: i32) -> Statement {
    Statement::Integer(Integer(x))
}

fn var(name: &str) -> Statement {
    Statement::Variable(Variable { name: name.to_string() })
}

#[test]
fn goal_name_is_its_head_name() {
    assert_eq!(goal("walk", vec![]).get_name(), "walk");
}

#[test]
fn heads_compare_by_name() {
    let a = Head::new(Atom("go".to_string()), vec![num(1)]);
    let b = Head::new(Atom("go".to_string()), vec![num(2), num(3)]);
    let c = Head::new(Atom("stop".to_string()), vec![num(1)]);
    assert!(a == b);
    assert!(a != c);
    assert_eq!(b.len(), 2);
    assert_eq!(Head::default().len(), 0);
}

#[test]
fn goal_head_matches_input() {
    let g = goal("go", vec![var("X"), num(2)]);
    let input = Collection::new(vec![num(1), num(2)]);
    let frames = g.match_head(&input);
    assert_eq!(frames.len(), 1);
    assert!(frames[0].get(&Variable { name: "X".to_string() }) == Some(&num(1)));
    assert!(g.evaluate(&input).is_none());
    let other = Collection::new(vec![num(1), num(3)]);
    assert_eq!(g.match_head(&other).len(), 0);
}

#[test]
fn one_observation_is_taken() {
    let obs = vec![Collection::new(vec![num(1)])];
    let got = Program::interpret_observation(obs).unwrap();
    assert_eq!(got.len(), 1);
}

#[test]
fn observation_count_errors() {
    assert_eq!(Program::interpret_observation(vec![]).unwrap_err(), "Received no observations to parse.");
    let two = vec![Collection::new(vec![]), Collection::new(vec![])];
    assert_eq!(Program::interpret_observation(two).unwrap_err(), "Received more than one observation to parse.");
}

#[test]
fn program_evaluation_finds_no_action() {
    let program = Program::new(vec![goal("main", vec![var("X")]), goal("main", vec![num(3)]), goal("helper", vec![])]);
    let input = Collection::new(vec![num(3)]);
    assert_eq!(
        program.evaluate(input).unwrap_err(),
        "Failed to obtain an action, did you forget to use the default rule?"
    );
}

#[test]
fn default_goal_has_no_rules() {
    let g = Goal::default();
    assert_eq!(g.get_name(), "");
}

#[test]
fn goals_are_grouped_by_consecutive_names() {
    let program = Program::new(vec![
        goal("a", vec![num(1)]),
        goal("a", vec![num(2)]),
        goal("b", vec![]),
        goal("a", vec![num(3)]),
    ]);
    let shown = format!("{:?}", program);
    assert_eq!(shown.matches("(\"a\", [").count(), 2);
    assert_eq!(shown.matches("(\"b\", [").count(), 1);
    assert_eq!(shown.matches("Goal {").count(), 4);
    let a_first = shown.find("(\"a\", [").unwrap();
    let b_at = shown.find("(\"b\", [").unwrap();
    assert!(a_first < b_at);
    assert!(shown.rfind("(\"a\", [").unwrap() > b_at);
}

#[test]
fn evaluation_can_be_tested_before_it_is_made() {
    let input = Collection::new(vec![num(1), num(2)]);
    assert!(goal("go", vec![var("X"), num(2)]).can_match(&input));
    assert!(!goal("go", vec![]).can_match(&Collection::new(vec![])));
    let program = Program::new(vec![goal("go", vec![var("X"), num(2)]), goal("go", vec![num(5)])]);
    assert!(program.can_evaluate(&input));
    let empty_program = Program::new(vec![]);
    assert!(!empty_program.can_evaluate(&input));
    let failing = Program::new(vec![goal("go", vec![])]);
    assert!(!failing.can_evaluate(&Collection::new(vec![])));
}

#[test]
fn goals_and_rules_compare_as_values() {
    let r1 = Rule::new(vec![Condition], vec![Action]);
    let r2 = Rule::new(vec![Condition], vec![Action]);
    let r3 = Rule::new(vec![Condition, Condition], vec![Action]);
    assert!(r1 == r2);
    assert!(r1 != r3);
    assert!(goal("go", vec![num(1)]) == goal("go", vec![num(2)]));
    assert!(goal("go", vec![]) != goal("stop", vec![]));
    let long = Goal::new(Head::new(Atom("go".to_string()), vec![]), vec![r1, r3]);
    assert!(goal("go", vec![]) != long);
}
