use teleora::statement::{Atom, Frame, Integer, Statement, Variable};

fn var(name: &str) -> Variable {
    Variable { name: name.to_string() }
}

fn num(x: i32) -> Statement {
    Statement::Integer(Integer(x))
}

#[test]
fn new_frame_is_empty() {
    let f = Frame::new();
    assert!(f.is_empty());
    assert_eq!(f.len(), 0);
    let d = Frame::default();
    assert!(d.is_empty());
}

#[test]
fn read_after_write() {
    let mut f = Frame::new();
    f.insert(&var("X"), num(1));
    f.insert(&var("Y"), num(2));
    assert!(f.get(&var("X")) == Some(&num(1)));
    assert!(f.get(&var("Y")) == Some(&num(2)));
    assert!(f.get(&var("Z")).is_none());
    assert_eq!(f.len(), 2);
}

#[test]
fn insert_replaces_the_earlier_value() {
    let mut f = Frame::new();
    f.insert(&var("X"), num(1));
    f.insert(&var("X"), num(3));
    assert!(f.get(&var("X")) == Some(&num(3)));
    assert_eq!(f.len(), 1);
}

#[test]
fn remove_unbinds() {
    let mut f = Frame::new();
    f.insert(&var("X"), num(1));
    f.insert(&var("Y"), num(2));
    assert!(f.remove(&var("X")) == Some(num(1)));
    assert!(f.get(&var("X")).is_none());
    assert!(f.get(&var("Y")) == Some(&num(2)));
    assert!(f.remove(&var("X")).is_none());
    assert_eq!(f.len(), 1);
}

#[test]
fn clear_unbinds_everything() {
    let mut f = Frame::new();
    f.insert(&var("X"), num(1));
    f.clear();
    assert!(f.is_empty());
}

#[test]
fn join_prefers_the_other_frame() {
    let mut a = Frame::new();
    a.insert(&var("X"), num(1));
    a.insert(&var("Y"), num(2));
    let mut b = Frame::new();
    b.insert(&var("Y"), num(20));
    b.insert(&var("Z"), Statement::Atom(Atom("z".to_string())));
    a.join(&b);
    assert_eq!(a.len(), 3);
    assert!(a.get(&var("X")) == Some(&num(1)));
    assert!(a.get(&var("Y")) == Some(&num(20)));
    assert!(a.get(&var("Z")) == Some(&Statement::Atom(Atom("z".to_string()))));
}

#[test]
fn copies_have_the_same_bindings() {
    let mut a = Frame::new();
    a.insert(&var("X"), num(1));
    let b = a.clone();
    let c = a.clone();
    assert!(b.get(&var("X")) == Some(&num(1)));
    assert!(c.get(&var("X")) == Some(&num(1)));
    assert_eq!(b.len(), 1);
}
